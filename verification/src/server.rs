//! The server coordinator: users, rooms, scope, handshake and broadcast.
//!
//! The application drives it: every incoming datagram's payload comes in
//! through `process_packet`, elapsed time through `register_elapsed`,
//! and `receive` hands back the events that accumulated. Each tick,
//! `send_all_updates` recomputes scope from room membership, folds dirty
//! component masks into update actions, and serializes one packet per
//! connection; what comes back is plain bytes for the driver to send.
//! The driver owns the sockets; nothing here performs I/O.

use vstd::prelude::*;

use crate::bytes::{write_u16_be, PacketReader};
use crate::connection::{ack_named, bit32, AckManager, TickManager, Timer};
use crate::entity_manager::EntityManager;
use crate::hmac::{generate_key_bytes, hmac_sha256, hmac_sign, hmac_verify};
use crate::key_generator::KeyGenerator;
use crate::keyed_vec::{KeySet, KeyedVec};
use crate::message_manager::MessageManager;
use crate::packet::{PacketType, StandardHeader};
use crate::packet_writer::{PacketWriter, MTU_SIZE};
use crate::replica::{Manifest, Replica};
use crate::world::{World, WorldRefType};
use crate::world_record::WorldRecord;
use std::collections::VecDeque;

verus! {

/// A connected or connecting user: the timestamp its challenge carried.
pub struct User {
    pub timestamp: Vec<u8>,
}

/// A room: the users subscribed to it and the entities inside it.
pub struct Room {
    pub users: KeySet,
    pub entities: KeySet,
}

/// What `receive` hands the application.
pub enum ServerEvent {
    Connection { user: u16 },
    Disconnection { user: u16 },
    Authorization { user: u16, auth: Replica },
    Message { user: u16, message: Replica },
    Tick,
}

/// One client's connection state on the server.
pub struct ClientConnection {
    pub ack_manager: AckManager,
    pub message_manager: MessageManager,
    pub entity_manager: EntityManager,
    pub heartbeat_timer: Timer,
    pub timeout_timer: Timer,
    pub last_received_tick: u16,
}

impl ClientConnection {
    pub open spec fn wf(self) -> bool {
        &&& self.ack_manager.wf()
        &&& self.message_manager.wf()
        &&& self.entity_manager.wf()
    }

    pub fn new(heartbeat_ms: u64, timeout_ms: u64) -> (r: ClientConnection)
        ensures
            r.wf(),
            r.ack_manager.sequence_number == 0,
            r.ack_manager.last_remote_seq == 0,
            r.ack_manager.outstanding@ == Set::<u16>::empty(),
            forall|s: u16| r.ack_manager.received.spec_get(s).is_none(),
            r.message_manager.outgoing() == Seq::<(bool, crate::replica::ReplicaView)>::empty(),
            r.message_manager.incoming() == Seq::<crate::replica::ReplicaView>::empty(),
            r.entity_manager.queued() == Seq::<crate::entity_action::ActionView>::empty(),
            r.entity_manager.entity_records@ == Map::<
                u16,
                crate::entity_action::LocalEntityRecord,
            >::empty(),
            r.last_received_tick == 0,
    {
        ClientConnection {
            ack_manager: AckManager::new(),
            message_manager: MessageManager::new(),
            entity_manager: EntityManager::new(),
            heartbeat_timer: Timer::new(heartbeat_ms),
            timeout_timer: Timer::new(timeout_ms),
            last_received_tick: 0,
        }
    }

    /// Fold one incoming header: the remote sequence is recorded for
    /// future acks, the timeout resets, and the acknowledged in-flight
    /// packets resolve on both managers — the named ones delivered (the
    /// message ledger forgets them; the entity ledger applies their
    /// effects per `deliver_packets_rel`), the window-passed ones dropped
    /// (guaranteed content re-enqueued, update masks folded back).
    pub fn process_incoming_header(&mut self, header: &StandardHeader, world_record: &WorldRecord)
        requires
            old(self).wf(),
            world_record.wf(),
        ensures
            final(self).wf(),
            final(self).last_received_tick == header.host_tick,
            final(self).timeout_timer.elapsed_ms == 0,
            final(self).heartbeat_timer == old(self).heartbeat_timer,
            final(self).entity_manager.delivered_packets@ == Seq::<u16>::empty(),
            exists|delivered: Seq<u16>, dropped: Seq<u16>, em_pre: EntityManager, em_mid: EntityManager|
                #![trigger delivered.to_set(), dropped.to_set(), EntityManager::deliver_packets_rel(em_pre, em_mid, *world_record, em_pre.delivered_packets@)]
                {
                    let out0 = old(self).ack_manager.outstanding@;
                    &&& delivered.to_set() == ack_named(
                        header.ack,
                        header.ack_bitfield,
                    ).intersect(out0)
                    &&& dropped.to_set() == out0.difference(delivered.to_set()).filter(
                        |p: u16| crate::seq::wrap_diff_spec(p, header.ack) > 32,
                    )
                    &&& final(self).ack_manager.outstanding@ == out0.difference(
                        delivered.to_set(),
                    ).difference(dropped.to_set())
                    &&& final(self).message_manager.incoming() == old(self).message_manager.incoming()
                    &&& ({
                        let (ms, mq) = mm_drop_fold(
                            mm_deliver_fold(old(self).message_manager.sent(), delivered),
                            old(self).message_manager.outgoing(),
                            dropped,
                        );
                        final(self).message_manager.sent() == ms
                            && final(self).message_manager.outgoing() == mq
                    })
                    &&& EntityManager::em_eq_mod_delivered(old(self).entity_manager, em_pre)
                    &&& em_pre.delivered_packets@ == old(self).entity_manager.delivered_packets@
                        + delivered
                    &&& EntityManager::deliver_packets_rel(
                        em_pre,
                        em_mid,
                        *world_record,
                        em_pre.delivered_packets@,
                    )
                    &&& ({
                        let (es, eu, eq, em) = em_drops_fold(
                            em_mid.sent(),
                            em_mid.updates(),
                            em_mid.queued(),
                            em_mid.masks(),
                            em_mid.last_update_packet_index,
                            dropped,
                        );
                        final(self).entity_manager.sent() == es && final(self).entity_manager.updates()
                            == eu && final(self).entity_manager.queued() == eq
                            && final(self).entity_manager.masks() == em
                    })
                },
    {
        self.ack_manager.mark_received(header.sequence);
        self.last_received_tick = header.host_tick;
        self.timeout_timer.reset();
        let (delivered, dropped) = self.ack_manager.process_ack(header.ack, header.ack_bitfield);
        let ghost ack_after = self.ack_manager;
        let ghost delivered_seq = delivered@;
        let ghost dropped_seq = dropped@;
        let ghost mm0 = self.message_manager;
        let ghost em0 = self.entity_manager;
        let mut i: usize = 0;
        while i < delivered.len()
            invariant
                i <= delivered@.len(),
                delivered@ == delivered_seq,
                self.wf(),
                world_record.wf(),
                self.message_manager.sent() == mm_deliver_fold(
                    mm0.sent(),
                    delivered_seq.take(i as int),
                ),
                self.message_manager.outgoing() == mm0.outgoing(),
                self.message_manager.incoming() == mm0.incoming(),
                self.entity_manager.delivered_packets@ == em0.delivered_packets@
                    + delivered_seq.take(i as int),
                self.entity_manager.queued_actions == em0.queued_actions,
                self.entity_manager.sent_actions == em0.sent_actions,
                self.entity_manager.sent_updates == em0.sent_updates,
                self.entity_manager.diff_handler == em0.diff_handler,
                self.entity_manager.entity_records == em0.entity_records,
                self.entity_manager.local_to_global_entity == em0.local_to_global_entity,
                self.entity_manager.component_records == em0.component_records,
                self.entity_manager.local_to_global_component == em0.local_to_global_component,
                self.entity_manager.entity_generator == em0.entity_generator,
                self.entity_manager.component_key_generator == em0.component_key_generator,
                self.entity_manager.delayed_entity_deletions == em0.delayed_entity_deletions,
                self.entity_manager.delayed_component_deletions == em0.delayed_component_deletions,
                self.entity_manager.last_update_packet_index == em0.last_update_packet_index,
                self.entity_manager.last_last_update_packet_index
                    == em0.last_last_update_packet_index,
                self.entity_manager.last_popped_diff_mask == em0.last_popped_diff_mask,
                self.entity_manager.last_popped_diff_mask_list == em0.last_popped_diff_mask_list,
                self.ack_manager == ack_after,
                self.last_received_tick == header.host_tick,
                self.timeout_timer.elapsed_ms == 0,
                self.heartbeat_timer == old(self).heartbeat_timer,
            decreases delivered@.len() - i,
        {
            let ghost sent_pre = self.message_manager.sent();
            self.message_manager.notify_packet_delivered(delivered[i]);
            self.entity_manager.notify_packet_delivered(delivered[i]);
            i = i + 1;
            proof {
                assert(delivered_seq.take(i as int).drop_last() =~= delivered_seq.take(i - 1));
                assert(delivered_seq.take(i as int).last() == delivered_seq[i - 1]);
                assert(self.entity_manager.delivered_packets@ =~= em0.delivered_packets@
                    + delivered_seq.take(i as int));
            }
        }
        proof {
            assert(delivered_seq.take(delivered_seq.len() as int) =~= delivered_seq);
        }
        let ghost em_before_drain = self.entity_manager;
        self.entity_manager.process_delivered_packets(world_record);
        let ghost em_mid_v = self.entity_manager;
        let mut j: usize = 0;
        while j < dropped.len()
            invariant
                j <= dropped@.len(),
                dropped@ == dropped_seq,
                self.wf(),
                self.message_manager.incoming() == mm0.incoming(),
                ({
                    let (ms, mq) = mm_drop_fold(
                        mm_deliver_fold(mm0.sent(), delivered_seq),
                        mm0.outgoing(),
                        dropped_seq.take(j as int),
                    );
                    self.message_manager.sent() == ms && self.message_manager.outgoing() == mq
                }),
                ({
                    let (es, eu, eq, em) = em_drops_fold(
                        em_mid_v.sent(),
                        em_mid_v.updates(),
                        em_mid_v.queued(),
                        em_mid_v.masks(),
                        em_mid_v.last_update_packet_index,
                        dropped_seq.take(j as int),
                    );
                    self.entity_manager.sent() == es && self.entity_manager.updates() == eu
                        && self.entity_manager.queued() == eq && self.entity_manager.masks() == em
                }),
                self.entity_manager.last_update_packet_index
                    == em_mid_v.last_update_packet_index,
                self.entity_manager.delivered_packets@ == Seq::<u16>::empty(),
                self.entity_manager.entity_records@ == em_mid_v.entity_records@,
                self.entity_manager.component_records@ == em_mid_v.component_records@,
                self.entity_manager.delayed_entity_deletions == em_mid_v.delayed_entity_deletions,
                self.entity_manager.delayed_component_deletions
                    == em_mid_v.delayed_component_deletions,
                self.last_received_tick == header.host_tick,
                self.timeout_timer.elapsed_ms == 0,
                self.heartbeat_timer == old(self).heartbeat_timer,
                self.ack_manager == ack_after,
            decreases dropped@.len() - j,
        {
            let ghost mm_pre = self.message_manager;
            let ghost em_pre = self.entity_manager;
            self.message_manager.notify_packet_dropped(dropped[j]);
            self.entity_manager.notify_packet_dropped(dropped[j]);
            j = j + 1;
            proof {
                assert(dropped_seq.take(j as int).drop_last() =~= dropped_seq.take(j - 1));
                assert(dropped_seq.take(j as int).last() == dropped_seq[j - 1]);
                assert(self.entity_manager.delivered_packets@ =~= Seq::<u16>::empty());
            }
        }
        proof {
            assert(dropped_seq.take(dropped_seq.len() as int) =~= dropped_seq);
            assert(EntityManager::em_eq_mod_delivered(old(self).entity_manager, em_before_drain));
            assert(em_before_drain.delivered_packets@ == old(self).entity_manager.delivered_packets@
                + delivered_seq);
            assert(EntityManager::deliver_packets_rel(
                em_before_drain,
                em_mid_v,
                *world_record,
                em_before_drain.delivered_packets@,
            ));
        }
    }

    /// Serialize queued entity actions into the packet until one does
    /// not fit; that one is unpopped exactly and waits for the next
    /// packet. Actions whose records or payloads are not ready stay
    /// queued untouched.
    #[verifier::rlimit(60)]
    pub fn write_entity_actions<W: WorldRefType>(
        &mut self,
        world: &W,
        world_record: &WorldRecord,
        writer: &mut PacketWriter,
    )
        requires
            old(self).wf(),
            world.inv(),
            world_record.wf(),
            old(writer).used() <= MTU_SIZE as int,
        ensures
            final(self).wf(),
            final(writer).used() <= MTU_SIZE as int,
            final(self).message_manager == old(self).message_manager,
            final(self).ack_manager == old(self).ack_manager,
            final(self).heartbeat_timer == old(self).heartbeat_timer,
            final(self).timeout_timer == old(self).timeout_timer,
            final(self).last_received_tick == old(self).last_received_tick,
            final(writer).message_working_bytes == old(writer).message_working_bytes,
            final(writer).message_count == old(writer).message_count,
    {
        let packet_index = self.ack_manager.sequence_number;
        loop
            invariant
                self.wf(),
                world.inv(),
                world_record.wf(),
                writer.used() <= MTU_SIZE as int,
                self.message_manager == old(self).message_manager,
                self.ack_manager == old(self).ack_manager,
                self.heartbeat_timer == old(self).heartbeat_timer,
                self.timeout_timer == old(self).timeout_timer,
                self.last_received_tick == old(self).last_received_tick,
                writer.message_working_bytes == old(writer).message_working_bytes,
                writer.message_count == old(writer).message_count,
            ensures
                self.wf(),
                writer.used() <= MTU_SIZE as int,
                self.message_manager == old(self).message_manager,
                self.ack_manager == old(self).ack_manager,
                self.heartbeat_timer == old(self).heartbeat_timer,
                self.timeout_timer == old(self).timeout_timer,
                self.last_received_tick == old(self).last_received_tick,
                writer.message_working_bytes == old(writer).message_working_bytes,
                writer.message_count == old(writer).message_count,
            decreases self.entity_manager.queued().len(),
        {
            if self.entity_manager.queued_actions.len() == 0 {
                break ;
            }
            if !pop_head_ok(&self.entity_manager, world_record) {
                break ;
            }
            let ghost em_pre = self.entity_manager;
            let action = match self.entity_manager.pop_outgoing_action(
                world_record,
                packet_index,
            ) {
                Some(a) => a,
                None => {
                    break ;
                },
            };
            proof {
                lemma_unpoppable(em_pre, self.entity_manager, *world_record, packet_index, action@);
            }
            if !action_writable(&self.entity_manager, world, &action) {
                self.entity_manager.unpop_outgoing_action(packet_index, action);
                break ;
            }
            let written = self.entity_manager.write_entity_action(world, writer, &action);
            if !written {
                self.entity_manager.unpop_outgoing_action(packet_index, action);
                break ;
            }
        }
    }

    /// Frame an outgoing payload under a fresh sequence number: the
    /// standard header carrying this side's next index and current
    /// acknowledgement window, then the body verbatim.
    pub fn frame_outgoing(
        &mut self,
        packet_type: PacketType,
        host_tick: u16,
        body: &Vec<u8>,
    ) -> (r: Vec<u8>)
        requires
            old(self).wf(),
        ensures
            final(self).wf(),
            r@.len() == 11 + body@.len(),
            exists|bf: u32|
                (forall|i: u32|
                    i < 32 ==> #[trigger] bit32(bf, i) == old(self).ack_manager.received.spec_get(
                        crate::connection::seq_back(old(self).ack_manager.last_remote_seq, i + 1),
                    ).is_some()) && r@ == (StandardHeader {
                    packet_type,
                    sequence: old(self).ack_manager.sequence_number,
                    ack: old(self).ack_manager.last_remote_seq,
                    ack_bitfield: bf,
                    host_tick,
                }).wire_bytes() + body@,
            final(self).ack_manager.sequence_number == crate::entity_manager::EntityManager::wrap_inc(
                old(self).ack_manager.sequence_number,
            ),
            final(self).ack_manager.outstanding@ == old(self).ack_manager.outstanding@.insert(
                old(self).ack_manager.sequence_number,
            ),
            final(self).ack_manager.last_remote_seq == old(self).ack_manager.last_remote_seq,
            final(self).ack_manager.received == old(self).ack_manager.received,
            final(self).heartbeat_timer.elapsed_ms == 0,
            final(self).message_manager == old(self).message_manager,
            final(self).entity_manager == old(self).entity_manager,
            final(self).timeout_timer == old(self).timeout_timer,
            final(self).last_received_tick == old(self).last_received_tick,
    {
        let (ack, ack_bitfield) = self.ack_manager.ack_fields();
        let sequence = self.ack_manager.next_packet_index();
        let header = StandardHeader::new(packet_type, sequence, ack, ack_bitfield, host_tick);
        let mut out: Vec<u8> = Vec::new();
        header.write(&mut out);
        let ghost hdr = header;
        let mut i: usize = 0;
        while i < body.len()
            invariant
                i <= body@.len(),
                out@ == hdr.wire_bytes() + body@.take(i as int),
            decreases body@.len() - i,
        {
            out.push(body[i]);
            i = i + 1;
            assert(out@ =~= hdr.wire_bytes() + body@.take(i as int));
        }
        self.heartbeat_timer.reset();
        proof {
            assert(out@ =~= hdr.wire_bytes() + body@);
        }
        out
    }
}

/// Whether the queue's head satisfies what a pop of it consumes: the
/// spawn's entity stands in the world record with every component's mask
/// registered; an insert's or update's component mask is registered.
fn pop_head_ok(em: &EntityManager, world_record: &WorldRecord) -> (r: bool)
    requires
        em.wf(),
        world_record.wf(),
        em.queued().len() > 0,
    ensures
        r ==> match em.queued()[0] {
            crate::entity_action::ActionView::SpawnEntity { entity, .. } => world_record.entities_view().dom().contains(
                entity,
            ) && forall|ck: u16| #[trigger]
                world_record.entities_view()[entity].contains(ck) ==> em.masks().dom().contains(
                    ck,
                ),
            crate::entity_action::ActionView::InsertComponent { component, .. } => em.masks().dom().contains(
                component,
            ),
            crate::entity_action::ActionView::UpdateComponent { component, mask, .. } => em.masks().dom().contains(
                component,
            ) && mask.len() <= 255,
            _ => true,
        },
{
    let head = &em.queued_actions[0];
    proof {
        assert(head@ == em.queued()[0]);
    }
    match head {
        crate::entity_action::EntityAction::SpawnEntity { entity, .. } => {
            if !world_record.has_entity(*entity) {
                return false;
            }
            let component_keys = world_record.get_component_keys(*entity);
            let ghost keys = component_keys@;
            let mut i: usize = 0;
            let n = component_keys.len();
            while i < n
                invariant
                    i <= n,
                    n == keys.len(),
                    component_keys@ == keys,
                    em.wf(),
                    keys.to_set() == world_record.entities_view()[*entity],
                    forall|a: int|
                        0 <= a < i ==> em.masks().dom().contains(#[trigger] keys[a]),
                decreases n - i,
            {
                if !em.diff_handler.has_component(component_keys[i]) {
                    return false;
                }
                i = i + 1;
            }
            proof {
                assert forall|ck: u16| #[trigger]
                    world_record.entities_view()[*entity].contains(
                        ck,
                    ) implies em.masks().dom().contains(ck) by {
                    assert(keys.to_set().contains(ck));
                    let a = choose|a: int| 0 <= a < keys.len() && keys[a] == ck;
                }
            }
            true
        },
        crate::entity_action::EntityAction::InsertComponent { component, .. } => em.diff_handler.has_component(
            *component,
        ),
        crate::entity_action::EntityAction::UpdateComponent { component, mask, .. } => {
            em.diff_handler.has_component(*component) && mask.byte_len() <= 255
        },
        _ => true,
    }
}

/// What a pop leaves behind is exactly what its unpop consumes.
proof fn lemma_unpoppable(
    pre: EntityManager,
    post: EntityManager,
    world_record: WorldRecord,
    packet_index: u16,
    av: crate::entity_action::ActionView,
)
    requires
        pre.wf(),
        post.wf(),
        world_record.wf(),
        pre.queued().len() > 0,
        post.sent().dom().contains(packet_index),
        post.sent()[packet_index].len() > 0,
        post.sent()[packet_index].last() == av,
        match av {
            crate::entity_action::ActionView::SpawnEntity { entity, .. } => (post.last_popped_diff_mask_list matches Some(
                l,
            ) && l.deep_view() == EntityManager::spawn_mask_snapshot(
                world_record,
                entity,
                pre.masks(),
            )) && world_record.entities_view().dom().contains(entity) && post.masks().dom()
                == pre.masks().dom() && (forall|ck: u16| #[trigger]
                world_record.entities_view()[entity].contains(ck) ==> pre.masks().dom().contains(
                    ck,
                )),
            crate::entity_action::ActionView::InsertComponent { component, .. } => (post.last_popped_diff_mask matches Some(
                m,
            ) && m@ == pre.masks()[component]) && pre.masks().dom().contains(component)
                && post.masks().dom() == pre.masks().dom(),
            crate::entity_action::ActionView::UpdateComponent { component, mask, .. } => (post.last_popped_diff_mask matches Some(
                m,
            ) && m@ == mask) && mask.len() <= 255 && pre.masks().dom().contains(component)
                && post.masks().dom() == pre.masks().dom(),
            _ => true,
        },
    ensures
        match av {
            crate::entity_action::ActionView::SpawnEntity { .. } => post.last_popped_diff_mask_list matches Some(
                l,
            ) && (forall|a: int|
                0 <= a < l.deep_view().len() ==> post.masks().dom().contains(
                    (#[trigger] l.deep_view()[a]).0,
                ) && l.deep_view()[a].1.len() <= 255) && (forall|a: int, b: int|
                0 <= a < b < l.deep_view().len() ==> (#[trigger] l.deep_view()[a]).0 != (
                #[trigger] l.deep_view()[b]).0),
            crate::entity_action::ActionView::InsertComponent { component, .. } => post.last_popped_diff_mask matches Some(
                m,
            ) && m@.len() <= 255 && post.masks().dom().contains(component),
            crate::entity_action::ActionView::UpdateComponent { component, .. } => post.last_popped_diff_mask matches Some(
                m,
            ) && m@.len() <= 255 && post.masks().dom().contains(component),
            _ => true,
        },
{
    match av {
        crate::entity_action::ActionView::SpawnEntity { entity, .. } => {
            let l = post.last_popped_diff_mask_list.unwrap();
            let snap = EntityManager::spawn_mask_snapshot(world_record, entity, pre.masks());
            let items = world_record.entities@[entity].items@;
            assert(l.deep_view() == snap);
            assert forall|a: int|
                0 <= a < l.deep_view().len() implies post.masks().dom().contains(
                (#[trigger] l.deep_view()[a]).0,
            ) && l.deep_view()[a].1.len() <= 255 by {
                assert(l.deep_view()[a].0 == items[a]);
                assert(items.to_set().contains(items[a]));
                assert(world_record.entities_view()[entity].contains(items[a]));
                assert(pre.masks().dom().contains(items[a]));
                assert(l.deep_view()[a].1 == pre.masks()[items[a]]);
                assert(pre.diff_handler.masks@[items[a]].wf());
                assert(pre.masks()[items[a]].len() <= 255);
            }
            assert forall|a: int, b: int|
                0 <= a < b < l.deep_view().len() implies (#[trigger] l.deep_view()[a]).0 != (
            #[trigger] l.deep_view()[b]).0 by {
                assert(world_record.entities@[entity].wf());
                assert(l.deep_view()[a].0 == items[a]);
                assert(l.deep_view()[b].0 == items[b]);
            }
        },
        crate::entity_action::ActionView::InsertComponent { component, .. } => {
            let m = post.last_popped_diff_mask.unwrap();
            assert(m@ == pre.masks()[component]);
            assert(pre.diff_handler.masks@[component].wf());
        },
        crate::entity_action::ActionView::UpdateComponent { .. } => {
        },
        _ => {},
    }
}

/// Whether a connection can begin replicating an entity: keys are
/// available, and every component of the entity is fresh to it and
/// declared in the manifest.
pub open spec fn spawnable(
    c: ClientConnection,
    wr: WorldRecord,
    manifest: Map<u16, u8>,
    entity: u16,
) -> bool {
    &&& c.entity_manager.entity_generator.can_generate()
    &&& c.entity_manager.component_key_generator.can_generate_n(
        wr.entities_view()[entity].len() as int,
    )
    &&& forall|ck: u16| #[trigger]
        wr.entities_view()[entity].contains(ck)
            ==> !c.entity_manager.component_records@.dom().contains(ck) && manifest.dom().contains(
            wr.components_view()[ck].1,
        )
}

/// What one scope decision does to one connection: a registered room
/// entity that should be in scope (its user's pawn, or the latest
/// override says so) is tracked afterwards whenever it can be spawned;
/// one that should not be is absent, already being deleted, or waiting
/// out its spawn ack. Everything else on the connection stays.
pub open spec fn scope_outcome_rel(
    pre: ClientConnection,
    post: ClientConnection,
    wr: WorldRecord,
    manifest: Map<u16, u8>,
    overrides: Seq<(u16, u16, u16, bool)>,
    room: u16,
    user: u16,
    entity: u16,
) -> bool {
    let is_pawn = pre.entity_manager.entity_records@.dom().contains(entity)
        && pre.entity_manager.entity_records@[entity].is_prediction;
    let should = is_pawn || scope_lookup(overrides, room, user, entity) == Some(true);
    &&& post.message_manager == pre.message_manager
    &&& post.ack_manager == pre.ack_manager
    &&& post.heartbeat_timer == pre.heartbeat_timer
    &&& post.timeout_timer == pre.timeout_timer
    &&& post.last_received_tick == pre.last_received_tick
    &&& (!wr.entities_view().dom().contains(entity) ==> post == pre)
    &&& (wr.entities_view().dom().contains(entity) && should
        && !pre.entity_manager.entity_records@.dom().contains(entity) && spawnable(
        pre,
        wr,
        manifest,
        entity,
    ) ==> post.entity_manager.entity_records@.dom().contains(entity)
        && post.entity_manager.entity_records@[entity].status
        == crate::entity_action::LocalityStatus::Creating)
    &&& (wr.entities_view().dom().contains(entity) && !should
        && pre.entity_manager.entity_records@.dom().contains(entity)
        ==> (post.entity_manager.entity_records@.dom().contains(entity)
        && (post.entity_manager.entity_records@[entity].status
            == crate::entity_action::LocalityStatus::Deleting
            || post.entity_manager.delayed_entity_deletions@.contains(entity))))
    &&& (wr.entities_view().dom().contains(entity) && should
        && pre.entity_manager.entity_records@.dom().contains(entity) ==> post == pre)
    &&& (wr.entities_view().dom().contains(entity) && !should
        && !pre.entity_manager.entity_records@.dom().contains(entity) ==> post == pre)
}

/// The (room, user, entity) triples a scope pass visits, in room-table
/// order: each room's users crossed with its entities.
pub open spec fn room_triples(entries: Seq<(u16, Room)>) -> Seq<(u16, u16, u16)>
    decreases entries.len(),
{
    if entries.len() == 0 {
        seq![]
    } else {
        room_triples(entries.drop_last()) + user_triples(
            entries.last().0,
            entries.last().1.users.items@,
            entries.last().1.entities.items@,
        )
    }
}

/// One room's user-entity cross product, in membership order.
pub open spec fn user_triples(room: u16, users: Seq<u16>, entities: Seq<u16>) -> Seq<
    (u16, u16, u16),
>
    decreases users.len(),
{
    if users.len() == 0 {
        seq![]
    } else {
        user_triples(room, users.drop_last(), entities) + entity_triples(
            room,
            users.last(),
            entities,
        )
    }
}

/// One user's entity row of the cross product.
pub open spec fn entity_triples(room: u16, user: u16, entities: Seq<u16>) -> Seq<(u16, u16, u16)>
    decreases entities.len(),
{
    if entities.len() == 0 {
        seq![]
    } else {
        entity_triples(room, user, entities.drop_last()) + seq![(room, user, entities.last())]
    }
}

/// A scope pass applies `scope_outcome_rel` for each visited triple, in
/// order, touching nothing but the named connections.
pub open spec fn scope_pass_rel(
    pre: Map<u16, ClientConnection>,
    post: Map<u16, ClientConnection>,
    wr: WorldRecord,
    manifest: Map<u16, u8>,
    overrides: Seq<(u16, u16, u16, bool)>,
    triples: Seq<(u16, u16, u16)>,
) -> bool
    decreases triples.len(),
{
    if triples.len() == 0 {
        post == pre
    } else {
        exists|mid: Map<u16, ClientConnection>|
            #[trigger] scope_step_rel(pre, mid, wr, manifest, overrides, triples[0])
                && scope_pass_rel(mid, post, wr, manifest, overrides, triples.drop_first())
    }
}

/// One triple's step on the connection table.
pub open spec fn scope_step_rel(
    pre: Map<u16, ClientConnection>,
    post: Map<u16, ClientConnection>,
    wr: WorldRecord,
    manifest: Map<u16, u8>,
    overrides: Seq<(u16, u16, u16, bool)>,
    triple: (u16, u16, u16),
) -> bool {
    &&& post.dom() == pre.dom()
    &&& (pre.dom().contains(triple.1) ==> scope_outcome_rel(
        pre[triple.1],
        post[triple.1],
        wr,
        manifest,
        overrides,
        triple.0,
        triple.1,
        triple.2,
    ))
    &&& forall|uk: u16|
        post.dom().contains(uk) && uk != triple.1 ==> post[uk] == pre[uk]
}

/// A scope pass never adds or removes connections.
pub proof fn lemma_scope_pass_dom(
    pre: Map<u16, ClientConnection>,
    post: Map<u16, ClientConnection>,
    wr: WorldRecord,
    manifest: Map<u16, u8>,
    overrides: Seq<(u16, u16, u16, bool)>,
    triples: Seq<(u16, u16, u16)>,
)
    requires
        scope_pass_rel(pre, post, wr, manifest, overrides, triples),
    ensures
        post.dom() == pre.dom(),
    decreases triples.len(),
{
    if triples.len() == 0 {
    } else {
        let mid = choose|mid: Map<u16, ClientConnection>|
            #[trigger] scope_step_rel(pre, mid, wr, manifest, overrides, triples[0])
                && scope_pass_rel(mid, post, wr, manifest, overrides, triples.drop_first());
        lemma_scope_pass_dom(mid, post, wr, manifest, overrides, triples.drop_first());
    }
}

/// A scope pass leaves every connection's transport state alone: the
/// message manager, acknowledgement state, timers and last received
/// tick pass through unchanged.
pub proof fn lemma_scope_pass_frames(
    pre: Map<u16, ClientConnection>,
    post: Map<u16, ClientConnection>,
    wr: WorldRecord,
    manifest: Map<u16, u8>,
    overrides: Seq<(u16, u16, u16, bool)>,
    triples: Seq<(u16, u16, u16)>,
)
    requires
        scope_pass_rel(pre, post, wr, manifest, overrides, triples),
    ensures
        post.dom() == pre.dom(),
        forall|uk: u16| #[trigger]
            post.dom().contains(uk) ==> post[uk].message_manager == pre[uk].message_manager
                && post[uk].ack_manager == pre[uk].ack_manager
                && post[uk].heartbeat_timer == pre[uk].heartbeat_timer
                && post[uk].timeout_timer == pre[uk].timeout_timer
                && post[uk].last_received_tick == pre[uk].last_received_tick,
    decreases triples.len(),
{
    if triples.len() == 0 {
    } else {
        let mid = choose|mid: Map<u16, ClientConnection>|
            #[trigger] scope_step_rel(pre, mid, wr, manifest, overrides, triples[0])
                && scope_pass_rel(mid, post, wr, manifest, overrides, triples.drop_first());
        lemma_scope_pass_frames(mid, post, wr, manifest, overrides, triples.drop_first());
    }
}

/// A scope chain extends by one applied triple at its end.
pub proof fn lemma_scope_pass_snoc(
    pre: Map<u16, ClientConnection>,
    cur: Map<u16, ClientConnection>,
    next: Map<u16, ClientConnection>,
    wr: WorldRecord,
    manifest: Map<u16, u8>,
    overrides: Seq<(u16, u16, u16, bool)>,
    triples: Seq<(u16, u16, u16)>,
    t: (u16, u16, u16),
)
    requires
        scope_pass_rel(pre, cur, wr, manifest, overrides, triples),
        scope_step_rel(cur, next, wr, manifest, overrides, t),
    ensures
        scope_pass_rel(pre, next, wr, manifest, overrides, triples.push(t)),
    decreases triples.len(),
{
    if triples.len() == 0 {
        assert(cur == pre);
        assert(triples.push(t)[0] == t);
        assert(triples.push(t).drop_first() =~= Seq::<(u16, u16, u16)>::empty());
        assert(scope_step_rel(pre, next, wr, manifest, overrides, triples.push(t)[0]));
        assert(scope_pass_rel(next, next, wr, manifest, overrides, triples.push(t).drop_first()));
    } else {
        let mid = choose|mid: Map<u16, ClientConnection>|
            #[trigger] scope_step_rel(pre, mid, wr, manifest, overrides, triples[0])
                && scope_pass_rel(mid, cur, wr, manifest, overrides, triples.drop_first());
        lemma_scope_pass_snoc(mid, cur, next, wr, manifest, overrides, triples.drop_first(), t);
        assert(triples.push(t)[0] == triples[0]);
        assert(triples.push(t).drop_first() =~= triples.drop_first().push(t));
        assert(scope_step_rel(pre, mid, wr, manifest, overrides, triples.push(t)[0]));
    }
}

/// What one reported dirty bit does to one connection: when the mask
/// table holds the component and the bit lands inside its mask, that one
/// bit is set; otherwise nothing changes.
pub open spec fn mutation_rel(
    pre: ClientConnection,
    post: ClientConnection,
    component: u16,
    bit: usize,
) -> bool {
    if pre.entity_manager.masks().dom().contains(component) && (bit as int)
        < pre.entity_manager.masks()[component].len() * 8
        && pre.entity_manager.masks()[component].len() <= 255 {
        &&& post.entity_manager.masks().dom() == pre.entity_manager.masks().dom()
        &&& crate::diff_mask::mask_bit(post.entity_manager.masks()[component], bit as int)
        &&& forall|i: int|
            i != bit ==> crate::diff_mask::mask_bit(post.entity_manager.masks()[component], i)
                == crate::diff_mask::mask_bit(pre.entity_manager.masks()[component], i)
        &&& forall|ck: u16|
            post.entity_manager.masks().dom().contains(ck) && ck != component
                ==> post.entity_manager.masks()[ck] == pre.entity_manager.masks()[ck]
        &&& post.entity_manager.entity_records == pre.entity_manager.entity_records
        &&& post.entity_manager.component_records == pre.entity_manager.component_records
        &&& post.entity_manager.queued_actions == pre.entity_manager.queued_actions
        &&& post.entity_manager.sent_actions == pre.entity_manager.sent_actions
        &&& post.entity_manager.sent_updates == pre.entity_manager.sent_updates
        &&& post.message_manager == pre.message_manager
        &&& post.ack_manager == pre.ack_manager
        &&& post.heartbeat_timer == pre.heartbeat_timer
        &&& post.timeout_timer == pre.timeout_timer
        &&& post.last_received_tick == pre.last_received_tick
    } else {
        post == pre
    }
}

/// What attaching a fresh component does to one connection: a
/// connection replicating the entity registers the component (mask
/// allocated, record `Creating`) and, when the entity is already
/// `Created` on it, queues the insert action; any other connection is
/// untouched.
pub open spec fn component_insert_rel(
    pre: ClientConnection,
    post: ClientConnection,
    entity: u16,
    component: u16,
    kind: u16,
) -> bool {
    if pre.entity_manager.entity_records@.dom().contains(entity)
        && !pre.entity_manager.component_records@.dom().contains(component)
        && pre.entity_manager.component_key_generator.can_generate() {
        &&& post.entity_manager.component_records@.dom()
            == pre.entity_manager.component_records@.dom().insert(component)
        &&& post.entity_manager.component_records@[component].status
            == crate::entity_action::LocalityStatus::Creating
        &&& post.entity_manager.masks().dom() == pre.entity_manager.masks().dom().insert(component)
        &&& forall|i: int|
            !(#[trigger] crate::diff_mask::mask_bit(post.entity_manager.masks()[component], i))
        &&& post.entity_manager.queued() == (
        if pre.entity_manager.entity_records@[entity].status
            == crate::entity_action::LocalityStatus::Created {
            pre.entity_manager.queued().push(
                crate::entity_action::ActionView::InsertComponent { entity, component, kind },
            )
        } else {
            pre.entity_manager.queued()
        })
        &&& post.entity_manager.entity_records@ == pre.entity_manager.entity_records@
        &&& post.entity_manager.sent_actions == pre.entity_manager.sent_actions
        &&& post.entity_manager.sent_updates == pre.entity_manager.sent_updates
        &&& post.message_manager == pre.message_manager
        &&& post.ack_manager == pre.ack_manager
        &&& post.heartbeat_timer == pre.heartbeat_timer
        &&& post.timeout_timer == pre.timeout_timer
        &&& post.last_received_tick == pre.last_received_tick
    } else {
        post == pre
    }
}

/// What removing a component does to one connection: one tracking it
/// starts the removal per its record's status — a `Created` record
/// turns `Deleting` and queues the remove action, a `Creating` one
/// waits out its insert ack in the delayed set, a `Deleting` one is
/// already on its way — and any other connection is untouched.
pub open spec fn component_remove_rel(
    pre: ClientConnection,
    post: ClientConnection,
    component: u16,
) -> bool {
    if pre.entity_manager.component_records@.dom().contains(component) {
        &&& post.entity_manager.entity_records@ == pre.entity_manager.entity_records@
        &&& post.entity_manager.masks() == pre.entity_manager.masks()
        &&& post.entity_manager.sent_actions == pre.entity_manager.sent_actions
        &&& post.entity_manager.sent_updates == pre.entity_manager.sent_updates
        &&& ({
            let rec = pre.entity_manager.component_records@[component];
            match rec.status {
                crate::entity_action::LocalityStatus::Creating => {
                    &&& post.entity_manager.component_records@
                        == pre.entity_manager.component_records@
                    &&& post.entity_manager.queued() == pre.entity_manager.queued()
                    &&& post.entity_manager.delayed_component_deletions@
                        == pre.entity_manager.delayed_component_deletions@.insert(component)
                },
                crate::entity_action::LocalityStatus::Created => {
                    &&& post.entity_manager.component_records@
                        == pre.entity_manager.component_records@.insert(
                        component,
                        crate::entity_action::LocalComponentRecord {
                            local_key: rec.local_key,
                            status: crate::entity_action::LocalityStatus::Deleting,
                        },
                    )
                    &&& post.entity_manager.queued() == pre.entity_manager.queued().push(
                        crate::entity_action::ActionView::RemoveComponent { component },
                    )
                    &&& post.entity_manager.delayed_component_deletions@
                        == pre.entity_manager.delayed_component_deletions@
                },
                crate::entity_action::LocalityStatus::Deleting => {
                    &&& post.entity_manager.component_records@
                        == pre.entity_manager.component_records@
                    &&& post.entity_manager.queued() == pre.entity_manager.queued()
                    &&& post.entity_manager.delayed_component_deletions@
                        == pre.entity_manager.delayed_component_deletions@
                },
            }
        })
        &&& post.message_manager == pre.message_manager
        &&& post.ack_manager == pre.ack_manager
        &&& post.heartbeat_timer == pre.heartbeat_timer
        &&& post.timeout_timer == pre.timeout_timer
        &&& post.last_received_tick == pre.last_received_tick
    } else {
        post == pre
    }
}

/// Whether a connection owes the next broadcast a packet before any
/// entity work is considered: a first queued message that fits the
/// budget, or a heartbeat that has come due.
pub open spec fn owes_packet(c: ClientConnection) -> bool {
    (c.message_manager.outgoing().len() > 0 && c.message_manager.outgoing()[0].1.properties.len()
        + 5 < 508) || c.heartbeat_timer.elapsed_ms >= c.heartbeat_timer.duration_ms
}

/// The conditions under which an action serializes: every key it names
/// has a live record and a world payload, within the one-byte bounds.
pub open spec fn action_writable_spec(
    em: EntityManager,
    world: Map<u16, crate::replica::ReplicaView>,
    a: crate::entity_action::ActionView,
) -> bool {
    match a {
        crate::entity_action::ActionView::SpawnEntity { entity, components } => {
            &&& em.entity_records@.dom().contains(entity)
            &&& components.len() <= 255
            &&& forall|i: int|
                0 <= i < components.len() ==> em.component_records@.dom().contains(
                    (#[trigger] components[i]).0,
                ) && world.dom().contains(components[i].0)
        },
        crate::entity_action::ActionView::DespawnEntity { entity } => em.entity_records@.dom().contains(
            entity,
        ),
        crate::entity_action::ActionView::OwnEntity { entity } => em.entity_records@.dom().contains(
            entity,
        ),
        crate::entity_action::ActionView::DisownEntity { entity } => em.entity_records@.dom().contains(
            entity,
        ),
        crate::entity_action::ActionView::InsertComponent { entity, component, .. } => {
            &&& em.entity_records@.dom().contains(entity)
            &&& em.component_records@.dom().contains(component)
            &&& world.dom().contains(component)
        },
        crate::entity_action::ActionView::UpdateComponent { component, mask, .. } => {
            &&& em.component_records@.dom().contains(component)
            &&& world.dom().contains(component)
            &&& mask.len() <= 255
            &&& crate::replica::masked_bytes(world[component].properties, mask, 0).len() <= 255
        },
        crate::entity_action::ActionView::RemoveComponent { component } => em.component_records@.dom().contains(
            component,
        ),
    }
}

/// Decide `action_writable_spec` at run time.
fn action_writable<W: WorldRefType>(
    em: &EntityManager,
    world: &W,
    action: &crate::entity_action::EntityAction,
) -> (r: bool)
    requires
        em.wf(),
        world.inv(),
    ensures
        r ==> action_writable_spec(*em, world.components(), action@),
{
    match action {
        crate::entity_action::EntityAction::SpawnEntity { entity, components } => {
            if !em.entity_records.contains_key(*entity) {
                return false;
            }
            if components.len() > 255 {
                return false;
            }
            let mut i: usize = 0;
            let n = components.len();
            while i < n
                invariant
                    i <= n,
                    n == components@.len(),
                    em.wf(),
                    world.inv(),
                    forall|a: int|
                        0 <= a < i ==> em.component_records@.dom().contains(
                            (#[trigger] components@[a]).0,
                        ) && world.components().dom().contains(components@[a].0),
                decreases n - i,
            {
                let ck = components[i].0;
                if !em.component_records.contains_key(ck) {
                    return false;
                }
                if !world.has_component(ck) {
                    return false;
                }
                i = i + 1;
            }
            true
        },
        crate::entity_action::EntityAction::DespawnEntity { entity } => em.entity_records.contains_key(
            *entity,
        ),
        crate::entity_action::EntityAction::OwnEntity { entity } => em.entity_records.contains_key(
            *entity,
        ),
        crate::entity_action::EntityAction::DisownEntity { entity } => em.entity_records.contains_key(
            *entity,
        ),
        crate::entity_action::EntityAction::InsertComponent { entity, component, .. } => {
            em.entity_records.contains_key(*entity) && em.component_records.contains_key(
                *component,
            ) && world.has_component(*component)
        },
        crate::entity_action::EntityAction::UpdateComponent { component, mask, .. } => {
            if !em.component_records.contains_key(*component) {
                return false;
            }
            if mask.byte_len() > 255 {
                return false;
            }
            match world.get_component(*component) {
                Some(rep) => {
                    if rep.property_count() <= 255 {
                        proof {
                            crate::replica::lemma_masked_bytes_len(
                                world.components()[*component].properties,
                                mask@,
                                0,
                            );
                        }
                        true
                    } else {
                        false
                    }
                },
                None => false,
            }
        },
        crate::entity_action::EntityAction::RemoveComponent { component } => em.component_records.contains_key(
            *component,
        ),
    }
}

pub struct Server {
    pub manifest: Manifest,
    pub world: World,
    pub world_record: WorldRecord,
    pub entity_key_generator: KeyGenerator,
    pub component_key_generator: KeyGenerator,
    pub users: KeyedVec<User>,
    pub user_key_generator: KeyGenerator,
    pub rooms: KeyedVec<Room>,
    pub room_key_generator: KeyGenerator,
    pub connections: KeyedVec<ClientConnection>,
    pub scope_overrides: Vec<(u16, u16, u16, bool)>,
    pub connection_hash_key: Vec<u8>,
    pub tick_manager: TickManager,
    pub outstanding_events: VecDeque<ServerEvent>,
    pub heartbeat_ms: u64,
    pub timeout_ms: u64,
}

/// The latest override recorded for a room, user and entity, if any.
pub open spec fn scope_lookup(s: Seq<(u16, u16, u16, bool)>, room: u16, user: u16, entity: u16) -> Option<bool>
    decreases s.len(),
{
    if s.len() == 0 {
        None
    } else if s.last().0 == room && s.last().1 == user && s.last().2 == entity {
        Some(s.last().3)
    } else {
        scope_lookup(s.drop_last(), room, user, entity)
    }
}

/// A message ledger after forgetting every delivered packet's record.
pub open spec fn mm_deliver_fold(
    sent: Map<u16, Seq<crate::replica::ReplicaView>>,
    delivered: Seq<u16>,
) -> Map<u16, Seq<crate::replica::ReplicaView>>
    decreases delivered.len(),
{
    if delivered.len() == 0 {
        sent
    } else {
        mm_deliver_fold(sent, delivered.drop_last()).remove(delivered.last())
    }
}

/// A message ledger and queue after re-enqueueing every dropped packet's
/// guaranteed messages, in drop order.
pub open spec fn mm_drop_fold(
    sent: Map<u16, Seq<crate::replica::ReplicaView>>,
    outgoing: Seq<(bool, crate::replica::ReplicaView)>,
    dropped: Seq<u16>,
) -> (Map<u16, Seq<crate::replica::ReplicaView>>, Seq<(bool, crate::replica::ReplicaView)>)
    decreases dropped.len(),
{
    if dropped.len() == 0 {
        (sent, outgoing)
    } else {
        let (s1, q1) = mm_drop_fold(sent, outgoing, dropped.drop_last());
        let p = dropped.last();
        (
            s1.remove(p),
            q1 + (if s1.dom().contains(p) {
                s1[p].map_values(|m: crate::replica::ReplicaView| (true, m))
            } else {
                Seq::<(bool, crate::replica::ReplicaView)>::empty()
            }),
        )
    }
}

/// An entity ledger's views after folding a sequence of drops, in order:
/// each drop requeues its packet's guaranteed actions and folds its
/// update masks back per `EntityManager::drop_fold`.
pub open spec fn em_drops_fold(
    sent: Map<u16, Seq<crate::entity_action::ActionView>>,
    updates: Map<u16, Map<u16, Seq<u8>>>,
    queued: Seq<crate::entity_action::ActionView>,
    masks: Map<u16, Seq<u8>>,
    last: u16,
    dropped: Seq<u16>,
) -> (
    Map<u16, Seq<crate::entity_action::ActionView>>,
    Map<u16, Map<u16, Seq<u8>>>,
    Seq<crate::entity_action::ActionView>,
    Map<u16, Seq<u8>>,
)
    decreases dropped.len(),
{
    if dropped.len() == 0 {
        (sent, updates, queued, masks)
    } else {
        let (s1, u1, q1, m1) = em_drops_fold(sent, updates, queued, masks, last, dropped.drop_last());
        let p = dropped.last();
        if s1.dom().contains(p) {
            (
                s1.remove(p),
                u1.remove(p),
                q1 + EntityManager::requeue_of(s1[p]),
                EntityManager::drop_fold(m1, s1[p], u1, p, last),
            )
        } else {
            (s1, u1, q1, m1)
        }
    }
}

/// Whether a connection has been silent past its timeout after `ms`
/// more milliseconds.
pub open spec fn times_out(c: ClientConnection, ms: u64) -> bool {
    (if c.timeout_timer.elapsed_ms + ms <= u64::MAX {
        c.timeout_timer.elapsed_ms + ms
    } else {
        u64::MAX as int
    }) >= c.timeout_timer.duration_ms
}

/// The users whose connections a timer pass drops.
pub open spec fn timed_out_users(s: Server, ms: u64) -> Set<u16> {
    Set::new(
        |uk: u16| s.connections@.dom().contains(uk) && times_out(s.connections@[uk], ms),
    )
}

/// The members of `ks` whose connections in `s` time out after `ms`.
pub open spec fn timed_out_among(s: Server, ms: u64, ks: Seq<u16>) -> Set<u16> {
    Set::new(
        |uk: u16| ks.contains(uk) && s.connections@.dom().contains(uk) && times_out(
            s.connections@[uk],
            ms,
        ),
    )
}

/// The disconnection events a timer pass emits, in table order.
pub open spec fn disconnect_events(entries: Seq<(u16, ClientConnection)>, ms: u64) -> Seq<
    ServerEvent,
>
    decreases entries.len(),
{
    if entries.len() == 0 {
        seq![]
    } else {
        disconnect_events(entries.drop_last(), ms) + (if times_out(entries.last().1, ms) {
            seq![ServerEvent::Disconnection { user: entries.last().0 }]
        } else {
            Seq::<ServerEvent>::empty()
        })
    }
}

/// The message events a connection table owes `receive`, in table order:
/// each connection's incoming queue, front first, tagged with its user.
pub open spec fn connection_message_events(entries: Seq<(u16, ClientConnection)>) -> Seq<
    ServerEvent,
>
    decreases entries.len(),
{
    if entries.len() == 0 {
        seq![]
    } else {
        connection_message_events(entries.drop_last())
            + entries.last().1.message_manager.queued_incoming_messages@.map_values(
            |m: Replica| ServerEvent::Message { user: entries.last().0, message: m },
        )
    }
}

impl Server {
    pub open spec fn wf(self) -> bool {
        &&& self.manifest.wf()
        &&& self.world.inv()
        &&& self.world_record.wf()
        &&& self.entity_key_generator.wf()
        &&& self.component_key_generator.wf()
        &&& self.users.wf()
        &&& self.user_key_generator.wf()
        &&& self.rooms.wf()
        &&& self.room_key_generator.wf()
        &&& self.connections.wf()
        &&& forall|u: u16| #[trigger]
            self.connections@.dom().contains(u) ==> self.connections@[u].wf()
        &&& forall|rk: u16| #[trigger]
            self.rooms@.dom().contains(rk) ==> self.rooms@[rk].users.wf()
                && self.rooms@[rk].entities.wf()
        &&& forall|uk: u16| #[trigger]
            self.users@.dom().contains(uk) ==> !self.user_key_generator.is_free(uk)
        &&& self.connection_hash_key@.len() == 32
        &&& self.tick_manager.wf()
    }

    /// A server around a given secret; the secret tags challenge
    /// timestamps during the handshake.
    pub fn new_with_key(
        manifest: Manifest,
        connection_hash_key: Vec<u8>,
        tick_interval_ms: Option<u64>,
        heartbeat_ms: u64,
        timeout_ms: u64,
    ) -> (r: Server)
        requires
            manifest.wf(),
            connection_hash_key@.len() == 32,
            tick_interval_ms matches Some(iv) ==> iv >= 1,
        ensures
            r.wf(),
            r.connection_hash_key@ == connection_hash_key@,
            r.outstanding_events@ == Seq::<ServerEvent>::empty(),
    {
        Server {
            manifest,
            world: World::new(),
            world_record: WorldRecord::new(),
            entity_key_generator: KeyGenerator::new(),
            component_key_generator: KeyGenerator::new(),
            users: KeyedVec::new(),
            user_key_generator: KeyGenerator::new(),
            rooms: KeyedVec::new(),
            room_key_generator: KeyGenerator::new(),
            connections: KeyedVec::new(),
            scope_overrides: Vec::new(),
            connection_hash_key,
            tick_manager: TickManager::new(tick_interval_ms),
            outstanding_events: VecDeque::new(),
            heartbeat_ms,
            timeout_ms,
        }
    }

    /// A server with a freshly drawn secret; `None` only when the system
    /// random source fails.
    pub fn new(
        manifest: Manifest,
        tick_interval_ms: Option<u64>,
        heartbeat_ms: u64,
        timeout_ms: u64,
    ) -> (r: Option<Server>)
        requires
            manifest.wf(),
            tick_interval_ms matches Some(iv) ==> iv >= 1,
        ensures
            r matches Some(s) ==> s.wf(),
    {
        let key = match generate_key_bytes() {
            Some(k) => k,
            None => {
                return None;
            },
        };
        Some(Self::new_with_key(manifest, key, tick_interval_ms, heartbeat_ms, timeout_ms))
    }

    /// The server's current tick.
    pub fn get_server_tick(&self) -> (r: u16)
        ensures
            r == self.tick_manager.tick,
    {
        self.tick_manager.get_tick()
    }

    /// The last tick heard from a client.
    pub fn get_client_tick(&self, user_key: u16) -> (r: Option<u16>)
        requires
            self.wf(),
        ensures
            r.is_some() == self.connections@.dom().contains(user_key),
            r matches Some(t) ==> t == self.connections@[user_key].last_received_tick,
    {
        match self.connections.get(user_key) {
            Some(c) => Some(c.last_received_tick),
            None => None,
        }
    }

    /// The challenge reply: the current tick, the echoed timestamp, and
    /// its keyed tag. The server keeps no state for the challenger; the
    /// tag is the cookie.
    pub fn process_challenge_request(&self, timestamp: &Vec<u8>) -> (r: Vec<u8>)
        requires
            self.wf(),
            timestamp@.len() < 256,
        ensures
            r@ == crate::bytes::u16_be_bytes(self.tick_manager.tick) + timestamp@ + hmac_sha256(
                self.connection_hash_key@,
                timestamp@,
            ),
    {
        let tag = hmac_sign(&self.connection_hash_key, timestamp);
        let mut out: Vec<u8> = Vec::new();
        write_u16_be(&mut out, self.tick_manager.get_tick());
        let mut i: usize = 0;
        while i < timestamp.len()
            invariant
                i <= timestamp@.len(),
                out@ == crate::bytes::u16_be_bytes(self.tick_manager.tick) + timestamp@.take(
                    i as int,
                ),
            decreases timestamp@.len() - i,
        {
            out.push(timestamp[i]);
            i = i + 1;
            assert(out@ =~= crate::bytes::u16_be_bytes(self.tick_manager.tick) + timestamp@.take(
                i as int,
            ));
        }
        let mut j: usize = 0;
        while j < tag.len()
            invariant
                j <= tag@.len(),
                out@ == crate::bytes::u16_be_bytes(self.tick_manager.tick) + timestamp@ + tag@.take(
                    j as int,
                ),
            decreases tag@.len() - j,
        {
            out.push(tag[j]);
            j = j + 1;
            assert(out@ =~= crate::bytes::u16_be_bytes(self.tick_manager.tick) + timestamp@
                + tag@.take(j as int));
        }
        proof {
            assert(timestamp@.take(timestamp@.len() as int) =~= timestamp@);
            assert(tag@.take(tag@.len() as int) =~= tag@);
            assert(out@ =~= crate::bytes::u16_be_bytes(self.tick_manager.tick) + timestamp@
                + hmac_sha256(self.connection_hash_key@, timestamp@));
        }
        out
    }

    /// A connect request from a new address: accept the user exactly when
    /// the echoed tag is the one this server's secret produces for the
    /// timestamp, then surface the authorization message for the
    /// application's verdict.
    #[verifier::rlimit(60)]
    pub fn process_connect_request(
        &mut self,
        timestamp: Vec<u8>,
        tag: &Vec<u8>,
        auth_reader: &mut PacketReader,
    ) -> (r: Option<u16>)
        requires
            old(self).wf(),
            old(auth_reader).wf(),
            timestamp@.len() < 256,
        ensures
            final(self).wf(),
            r.is_some() <==> crate::hmac::tag_matches(
                old(self).connection_hash_key@,
                timestamp@,
                tag@,
            ) && old(self).user_key_generator.can_generate() && ({
                let b = old(auth_reader).remaining();
                b.len() >= 2 && crate::message_manager::parse_messages(
                    old(self).manifest@,
                    b,
                    1,
                ).is_some()
            }),
            r.is_none() ==> final(self).users@ == old(self).users@
                && final(self).outstanding_events@ == old(self).outstanding_events@,
            r matches Some(uk) ==> final(self).users@.dom() == old(self).users@.dom().insert(uk)
                && final(self).users@[uk].timestamp@ == timestamp@
                && final(self).outstanding_events@.len() == old(self).outstanding_events@.len() + 1
                && (final(self).outstanding_events@.last() matches ServerEvent::Authorization {
                    user,
                    auth,
                } && user == uk && auth@ == crate::message_manager::parse_messages(
                    old(self).manifest@,
                    old(auth_reader).remaining(),
                    1,
                ).unwrap()[0])
                && final(self).outstanding_events@.take(old(self).outstanding_events@.len() as int)
                    == old(self).outstanding_events@,
    {
        let ok = hmac_verify(&self.connection_hash_key, &timestamp, tag);
        if !ok {
            return None;
        }
        if !self.user_key_generator.check_can_generate() {
            return None;
        }
        // read the auth message: a kind id and its payload
        let ghost b0 = auth_reader.remaining();
        let kind = match auth_reader.read_u16_be() {
            Some(k) => k,
            None => {
                return None;
            },
        };
        let auth = match self.manifest.create_replica(kind, auth_reader) {
            Some(a) => a,
            None => {
                proof {
                    if self.manifest@.dom().contains(kind) {
                        assert(b0.skip(2).len() < self.manifest@[kind]);
                    }
                }
                return None;
            },
        };
        proof {
            let n = self.manifest@[kind] as int;
            assert(crate::message_manager::parse_messages(self.manifest@, b0, 1).is_some()) by {
                assert(b0.len() >= 2);
                assert(crate::bytes::u16_from_be(b0[0], b0[1]) == kind);
                assert(b0.skip(2).len() >= n);
                assert(b0.len() >= 2 + n);
                assert(crate::message_manager::parse_messages(
                    self.manifest@,
                    b0.skip(2 + n),
                    0,
                ).is_some());
            }
            assert(auth@ == crate::message_manager::parse_messages(self.manifest@, b0, 1).unwrap()[0])
                by {
                assert(auth@.properties =~= b0.skip(2).take(n));
                assert(auth@.properties =~= b0.subrange(2, 2 + n));
                assert(crate::message_manager::parse_messages(self.manifest@, b0, 1).unwrap()[0]
                    == crate::replica::ReplicaView { kind, properties: b0.subrange(2, 2 + n) });
            }
        }
        let user_key = self.user_key_generator.generate();
        proof {
            assert(self.users@.dom() =~= old(self).users@.dom());
            if self.users@.dom().contains(user_key) {
            }
        }
        let fresh = !self.users.contains_key(user_key);
        if !fresh {
            // a stale record under a recycled key would shadow the user
            let _ = self.users.remove(user_key);
        }
        self.users.insert(user_key, User { timestamp });
        self.outstanding_events.push_back(
            ServerEvent::Authorization { user: user_key, auth },
        );
        proof {
            assert(self.users@.dom() =~= old(self).users@.dom().insert(user_key));
            assert(self.users@[user_key].timestamp@ == timestamp@);
            assert forall|uk2: u16| #[trigger]
                self.users@.dom().contains(uk2) implies !self.user_key_generator.is_free(uk2) by {
                if uk2 != user_key {
                    assert(old(self).users@.dom().contains(uk2));
                }
            }
            assert(self.outstanding_events@.last() == (ServerEvent::Authorization {
                user: user_key,
                auth,
            }));
            assert(self.outstanding_events@.take(old(self).outstanding_events@.len() as int)
                =~= old(self).outstanding_events@);
        }
        Some(user_key)
    }

    /// The application accepts an authorized user: a connection is set
    /// up, a connection event queued, and the accept reply framed on the
    /// fresh connection under its first sequence number.
    pub fn accept_connection(&mut self, user_key: u16) -> (r: Option<Vec<u8>>)
        requires
            old(self).wf(),
        ensures
            final(self).wf(),
            r.is_some() <==> old(self).users@.dom().contains(user_key),
            r matches Some(rep) ==> final(self).connections@.dom() == old(self).connections@.dom().insert(
                user_key,
            ) && (forall|uk: u16|
                uk != user_key && old(self).connections@.dom().contains(uk)
                    ==> final(self).connections@[uk] == old(self).connections@[uk])
                && final(self).outstanding_events@ == old(self).outstanding_events@.push(
                ServerEvent::Connection { user: user_key },
            ) && (exists|bf: u32|
                (forall|i: u32| i < 32 ==> !(#[trigger] bit32(bf, i))) && rep@ == (StandardHeader {
                    packet_type: PacketType::ServerConnectResponse,
                    sequence: 0,
                    ack: 0,
                    ack_bitfield: bf,
                    host_tick: old(self).tick_manager.tick,
                }).wire_bytes())
                && final(self).connections@[user_key].message_manager.outgoing() == Seq::<
                (bool, crate::replica::ReplicaView),
            >::empty() && final(self).connections@[user_key].entity_manager.queued() == Seq::<
                crate::entity_action::ActionView,
            >::empty(),
            r.is_none() ==> final(self).connections@ == old(self).connections@
                && final(self).outstanding_events@ == old(self).outstanding_events@,
            final(self).users == old(self).users,
            final(self).rooms == old(self).rooms,
            final(self).world == old(self).world,
            final(self).world_record == old(self).world_record,
            final(self).tick_manager == old(self).tick_manager,
            final(self).scope_overrides == old(self).scope_overrides,
    {
        if !self.users.contains_key(user_key) {
            return None;
        }
        let mut connection = ClientConnection::new(self.heartbeat_ms, self.timeout_ms);
        let ghost conn0 = connection;
        let body: Vec<u8> = Vec::new();
        let reply = connection.frame_outgoing(
            PacketType::ServerConnectResponse,
            self.tick_manager.get_tick(),
            &body,
        );
        proof {
            let bf = choose|bf: u32|
                (forall|i: u32|
                    i < 32 ==> #[trigger] bit32(bf, i) == conn0.ack_manager.received.spec_get(
                        crate::connection::seq_back(conn0.ack_manager.last_remote_seq, i + 1),
                    ).is_some()) && reply@ == (StandardHeader {
                    packet_type: PacketType::ServerConnectResponse,
                    sequence: conn0.ack_manager.sequence_number,
                    ack: conn0.ack_manager.last_remote_seq,
                    ack_bitfield: bf,
                    host_tick: self.tick_manager.tick,
                }).wire_bytes() + body@;
            assert(forall|i: u32| i < 32 ==> !(#[trigger] bit32(bf, i)));
            assert(reply@ =~= (StandardHeader {
                packet_type: PacketType::ServerConnectResponse,
                sequence: 0,
                ack: 0,
                ack_bitfield: bf,
                host_tick: old(self).tick_manager.tick,
            }).wire_bytes());
        }
        self.connections.insert(user_key, connection);
        self.outstanding_events.push_back(ServerEvent::Connection { user: user_key });
        proof {
            assert(self.connections@.dom() =~= old(self).connections@.dom().insert(user_key));
        }
        Some(reply)
    }

    /// A duplicate connect request from an established user. When its
    /// timestamp matches the stored one, the accept reply is framed again
    /// on the existing connection (the first reply may have been lost).
    /// A differing timestamp means another process now uses the address:
    /// the stale connection and user are dropped with a disconnection
    /// event, the user leaves every room, its key returns to the
    /// generator, and the newcomer must handshake afresh.
    pub fn resend_connect_response(&mut self, user_key: u16, timestamp: &Vec<u8>) -> (r: Option<
        Vec<u8>,
    >)
        requires
            old(self).wf(),
        ensures
            final(self).wf(),
            (!old(self).users@.dom().contains(user_key) || !old(self).connections@.dom().contains(
                user_key,
            )) ==> r.is_none() && final(self).users@ == old(self).users@
                && final(self).connections@ == old(self).connections@
                && final(self).outstanding_events@ == old(self).outstanding_events@
                && final(self).rooms == old(self).rooms,
            (old(self).users@.dom().contains(user_key) && old(self).connections@.dom().contains(
                user_key,
            ) && old(self).users@[user_key].timestamp@ == timestamp@) ==> r.is_some()
                && final(self).users@ == old(self).users@ && final(self).connections@.dom() == old(self).connections@.dom()
                && final(self).outstanding_events@ == old(self).outstanding_events@
                && final(self).rooms == old(self).rooms,
            (old(self).users@.dom().contains(user_key) && old(self).connections@.dom().contains(
                user_key,
            ) && old(self).users@[user_key].timestamp@ != timestamp@) ==> r.is_none()
                && final(self).users@ == old(self).users@.remove(user_key)
                && final(self).connections@ == old(self).connections@.remove(user_key)
                && final(self).outstanding_events@ == old(self).outstanding_events@.push(
                ServerEvent::Disconnection { user: user_key },
            ) && final(self).rooms@.dom() == old(self).rooms@.dom() && (forall|rk: u16| #[trigger]
                final(self).rooms@.dom().contains(rk) ==> final(self).rooms@[rk].users@
                    == old(self).rooms@[rk].users@.remove(user_key)
                    && final(self).rooms@[rk].entities == old(self).rooms@[rk].entities)
                && final(self).user_key_generator.is_free(user_key),
    {
        let stored_matches = match self.users.get(user_key) {
            Some(user) => {
                let mut same = user.timestamp.len() == timestamp.len();
                let n = user.timestamp.len();
                let mut i: usize = 0;
                while i < n
                    invariant
                        i <= n,
                        n == user.timestamp@.len(),
                        same ==> user.timestamp@.len() == timestamp@.len(),
                        same ==> forall|a: int|
                            0 <= a < i ==> user.timestamp@[a] == timestamp@[a],
                        !same ==> user.timestamp@ != timestamp@,
                    decreases n - i,
                {
                    if same && user.timestamp[i] != timestamp[i] {
                        same = false;
                        proof {
                            assert(user.timestamp@[i as int] != timestamp@[i as int]);
                        }
                    }
                    i = i + 1;
                }
                proof {
                    if same {
                        assert(user.timestamp@ =~= timestamp@);
                    }
                }
                Some(same)
            },
            None => None,
        };
        match stored_matches {
            Some(true) => {
                match self.connections.remove(user_key) {
                    Some(mut c) => {
                        let body: Vec<u8> = Vec::new();
                        let reply = c.frame_outgoing(
                            PacketType::ServerConnectResponse,
                            self.tick_manager.get_tick(),
                            &body,
                        );
                        self.connections.insert(user_key, c);
                        proof {
                            assert(self.connections@.dom() =~= old(self).connections@.dom());
                        }
                        Some(reply)
                    },
                    None => None,
                }
            },
            Some(false) => {
                if !self.connections.contains_key(user_key) {
                    return None;
                }
                let _ = self.connections.remove(user_key);
                match self.users.remove(user_key) {
                    Some(_) => {
                        self.user_key_generator.recycle_key(user_key);
                        proof {
                            assert forall|uk2: u16| #[trigger]
                                self.users@.dom().contains(uk2)
                                implies !self.user_key_generator.is_free(uk2) by {
                                assert(old(self).users@.dom().contains(uk2));
                                assert(uk2 != user_key);
                            }
                        }
                    },
                    None => {
                        proof {
                            assert(false);
                        }
                    },
                }
                self.unsubscribe_user(user_key);
                self.outstanding_events.push_back(
                    ServerEvent::Disconnection { user: user_key },
                );
                None
            },
            None => None,
        }
    }

    /// The application rejects an authorized user: the record is
    /// dropped, its room memberships with it, and its key returns to
    /// the generator.
    pub fn reject_connection(&mut self, user_key: u16)
        requires
            old(self).wf(),
        ensures
            final(self).wf(),
            final(self).users@ == old(self).users@.remove(user_key),
            final(self).rooms@.dom() == old(self).rooms@.dom(),
            forall|rk: u16| #[trigger]
                final(self).rooms@.dom().contains(rk) ==> final(self).rooms@[rk].users@
                    == old(self).rooms@[rk].users@.remove(user_key)
                    && final(self).rooms@[rk].entities == old(self).rooms@[rk].entities,
            old(self).users@.dom().contains(user_key) ==> final(self).user_key_generator.is_free(
                user_key,
            ),
            final(self).connections == old(self).connections,
            final(self).outstanding_events == old(self).outstanding_events,
    {
        match self.users.remove(user_key) {
            Some(_) => {
                self.user_key_generator.recycle_key(user_key);
                proof {
                    assert forall|uk2: u16| #[trigger]
                        self.users@.dom().contains(uk2) implies !self.user_key_generator.is_free(
                        uk2,
                    ) by {
                        assert(old(self).users@.dom().contains(uk2));
                        assert(uk2 != user_key);
                    }
                }
            },
            None => {},
        }
        self.unsubscribe_user(user_key);
    }

    /// Queue a message for one client.
    pub fn queue_message(&mut self, user_key: u16, message: &Replica, guaranteed_delivery: bool)
        requires
            old(self).wf(),
        ensures
            final(self).wf(),
            old(self).connections@.dom().contains(user_key) ==> final(self).connections@[user_key].message_manager.outgoing() == old(self).connections@[user_key].message_manager.outgoing().push(
                (guaranteed_delivery, message@),
            ),
            !old(self).connections@.dom().contains(user_key) ==> final(self).connections@ == old(self).connections@,
    {
        match self.connections.remove(user_key) {
            Some(mut c) => {
                c.message_manager.queue_outgoing_message(message, guaranteed_delivery);
                self.connections.insert(user_key, c);
                proof {
                    assert(self.connections@ =~= old(self).connections@.insert(
                        user_key,
                        self.connections@[user_key],
                    ));
                }
            },
            None => {
                proof {
                    assert(self.connections@ =~= old(self).connections@);
                }
            },
        }
    }

    /// Register a fresh entity in the world record. The entity key space
    /// is 16 bits; registration is owed whenever a key is available.
    pub fn register_entity(&mut self) -> (r: Option<u16>)
        requires
            old(self).wf(),
        ensures
            final(self).wf(),
            r.is_some() <==> old(self).entity_key_generator.can_generate() && !old(self).world_record.entities_view().dom().contains(
                old(self).entity_key_generator.peek(),
            ),
            r matches Some(e) ==> e == old(self).entity_key_generator.peek() && final(self).world_record.entities_view()
                == old(self).world_record.entities_view().insert(e, Set::<u16>::empty()) && !old(self).world_record.entities_view().dom().contains(e)
                && final(self).world_record.components_view() == old(self).world_record.components_view(),
            r.is_none() ==> final(self).world_record == old(self).world_record,
            final(self).connections == old(self).connections,
            final(self).rooms == old(self).rooms,
            final(self).users == old(self).users,
            final(self).world == old(self).world,
            final(self).outstanding_events == old(self).outstanding_events,
            final(self).tick_manager == old(self).tick_manager,
            final(self).scope_overrides == old(self).scope_overrides,
    {
        if !self.entity_key_generator.check_can_generate() {
            return None;
        }
        let entity = self.entity_key_generator.generate();
        if self.world_record.has_entity(entity) {
            // a recycled key still held by the record is never reused
            return None;
        }
        self.world_record.spawn_entity(entity);
        proof {
            assert(self.world_record.entities_view().dom() =~= old(self).world_record.entities_view().dom().insert(entity));
        }
        Some(entity)
    }

    /// Attach a component value of `kind` to an entity. Its mask width
    /// comes from the manifest; mutators then report dirty bits by key.
    /// Registration is owed whenever the entity exists, the kind is
    /// declared, and a component key is available.
    pub fn add_component_to_entity(&mut self, entity: u16, value: Replica) -> (r: Option<u16>)
        requires
            old(self).wf(),
        ensures
            final(self).wf(),
            r.is_some() <==> old(self).world_record.entities_view().dom().contains(entity)
                && old(self).component_key_generator.can_generate() && old(self).manifest@.dom().contains(
                value@.kind,
            ) && !old(self).world_record.components_view().dom().contains(
                old(self).component_key_generator.peek(),
            ),
            r matches Some(ck) ==> ck == old(self).component_key_generator.peek()
                && final(self).world_record.components_view() == old(self).world_record.components_view().insert(
                ck,
                (entity, value@.kind),
            ) && final(self).world.components() == old(self).world.components().insert(ck, value@),
            final(self).world_record.entities_view().dom() == old(self).world_record.entities_view().dom(),
            final(self).manifest == old(self).manifest,
            r matches Some(ck) ==> final(self).connections@.dom() == old(self).connections@.dom()
                && (forall|uk: u16| #[trigger]
                final(self).connections@.dom().contains(uk) ==> component_insert_rel(
                    old(self).connections@[uk],
                    final(self).connections@[uk],
                    entity,
                    ck,
                    value@.kind,
                )),
            r.is_none() ==> final(self).connections@ == old(self).connections@,
    {
        if !self.world_record.has_entity(entity) {
            return None;
        }
        if !self.component_key_generator.check_can_generate() {
            return None;
        }
        if !self.manifest.size_on_wire(value.kind()).is_some() {
            return None;
        }
        let component = self.component_key_generator.generate();
        match self.world_record.get_component_record(component) {
            Some(_) => {
                return None;
            },
            None => {},
        }
        let kind = value.kind();
        self.world_record.add_component(entity, component, kind);
        self.world.insert_component(component, value);
        proof {
            assert(self.world_record.components_view().dom() =~= old(self).world_record.components_view().dom().insert(component));
            assert(self.world_record.entities_view().dom() =~= old(self).world_record.entities_view().dom());
        }
        // connections already replicating the entity pick the component up
        let user_keys = self.connections.keys();
        let ghost keys = user_keys@;
        let n = user_keys.len();
        let ghost conns0 = self.connections@;
        let ghost wr_now = self.world_record;
        let ghost world_now = self.world;
        let mut i: usize = 0;
        while i < n
            invariant
                i <= n,
                n == keys.len(),
                user_keys@ == keys,
                self.wf(),
                forall|a: int, b: int| 0 <= a < b < keys.len() ==> keys[a] != keys[b],
                forall|a: int| 0 <= a < keys.len() ==> conns0.dom().contains(#[trigger] keys[a]),
                forall|uk: u16| conns0.dom().contains(uk) ==> keys.contains(uk),
                self.connections@.dom() == conns0.dom(),
                conns0 == old(self).connections@,
                self.world_record == wr_now,
                self.world == world_now,
                self.manifest == old(self).manifest,
                self.world_record.wf(),
                self.manifest.wf(),
                self.world_record.components_view().dom().contains(component),
                self.world_record.components_view()[component] == (entity, kind),
                self.manifest@.dom().contains(kind),
                forall|uk: u16| #[trigger]
                    self.connections@.dom().contains(uk) ==> (if keys.take(i as int).contains(uk) {
                        component_insert_rel(
                            conns0[uk],
                            self.connections@[uk],
                            entity,
                            component,
                            kind,
                        )
                    } else {
                        self.connections@[uk] == conns0[uk]
                    }),
                self.users == old(self).users,
                self.rooms == old(self).rooms,
                self.tick_manager == old(self).tick_manager,
                self.outstanding_events == old(self).outstanding_events,
                self.entity_key_generator == old(self).entity_key_generator,
                self.scope_overrides == old(self).scope_overrides,
                self.connection_hash_key == old(self).connection_hash_key,
            decreases n - i,
        {
            let uk = user_keys[i];
            let ghost conns_pre = self.connections@;
            match self.connections.remove(uk) {
                Some(mut c) => {
                    let ghost c0 = c;
                    let eligible = c.entity_manager.has_entity(entity)
                        && !c.entity_manager.component_records.contains_key(component)
                        && c.entity_manager.component_key_generator.check_can_generate();
                    if eligible {
                        c.entity_manager.insert_component(
                            &self.world_record,
                            &self.manifest,
                            component,
                        );
                    }
                    proof {
                        assert(component_insert_rel(c0, c, entity, component, kind));
                    }
                    self.connections.insert(uk, c);
                    proof {
                        assert(self.connections@.dom() =~= conns_pre.dom());
                    }
                },
                None => {
                    proof {
                        assert(false);
                    }
                },
            }
            i = i + 1;
            proof {
                assert forall|uk2: u16| #[trigger]
                    self.connections@.dom().contains(uk2) implies (if keys.take(i as int).contains(
                    uk2,
                ) {
                    component_insert_rel(
                        conns0[uk2],
                        self.connections@[uk2],
                        entity,
                        component,
                        kind,
                    )
                } else {
                    self.connections@[uk2] == conns0[uk2]
                }) by {
                    assert(keys.take(i as int) =~= keys.take(i - 1).push(uk));
                    if keys.take(i as int).contains(uk2) {
                        let a = choose|a: int|
                            0 <= a < i && #[trigger] keys.take(i as int)[a] == uk2;
                        if a < i - 1 {
                            assert(keys.take(i - 1)[a] == uk2);
                            assert(keys.take(i - 1).contains(uk2));
                            assert(uk2 != uk);
                        }
                    } else {
                        assert(!keys.take(i - 1).contains(uk2)) by {
                            if keys.take(i - 1).contains(uk2) {
                                let a = choose|a: int|
                                    0 <= a < i - 1 && #[trigger] keys.take(i - 1)[a] == uk2;
                                assert(keys.take(i as int)[a] == uk2);
                            }
                        }
                        assert(uk2 != uk) by {
                            if uk2 == uk {
                                assert(keys.take(i as int)[i - 1] == uk);
                            }
                        }
                    }
                }
            }
        }
        proof {
            assert(keys.take(n as int) =~= keys);
            assert forall|uk: u16| #[trigger]
                self.connections@.dom().contains(uk) implies component_insert_rel(
                old(self).connections@[uk],
                self.connections@[uk],
                entity,
                component,
                kind,
            ) by {
                assert(conns0.dom().contains(uk));
                assert(keys.contains(uk));
            }
        }
        Some(component)
    }

    /// A property mutator reports one dirty bit of a component: on every
    /// connection whose mask table holds the component (and whose mask is
    /// wide enough for the bit), that bit is set and every other bit and
    /// component is untouched; connections without it are untouched.
    pub fn notify_component_mutation(&mut self, component: u16, bit: usize)
        requires
            old(self).wf(),
        ensures
            final(self).wf(),
            final(self).connections@.dom() == old(self).connections@.dom(),
            forall|uk: u16| #[trigger]
                final(self).connections@.dom().contains(uk) ==> mutation_rel(
                    old(self).connections@[uk],
                    final(self).connections@[uk],
                    component,
                    bit,
                ),
            final(self).users == old(self).users,
            final(self).rooms == old(self).rooms,
            final(self).world == old(self).world,
            final(self).world_record == old(self).world_record,
            final(self).outstanding_events == old(self).outstanding_events,
            final(self).tick_manager == old(self).tick_manager,
    {
        let ghost conns0 = self.connections@;
        let user_keys = self.connections.keys();
        let ghost keys = user_keys@;
        let n = user_keys.len();
        let mut i: usize = 0;
        while i < n
            invariant
                i <= n,
                n == keys.len(),
                user_keys@ == keys,
                forall|a: int, b: int| 0 <= a < b < n ==> keys[a] != keys[b],
                forall|a: int| 0 <= a < n ==> conns0.dom().contains(#[trigger] keys[a]),
                forall|uk: u16| conns0.dom().contains(uk) ==> keys.contains(uk),
                conns0 == old(self).connections@,
                self.wf(),
                self.connections@.dom() == conns0.dom(),
                self.users == old(self).users,
                self.rooms == old(self).rooms,
                self.world == old(self).world,
                self.world_record == old(self).world_record,
                self.manifest == old(self).manifest,
                self.scope_overrides == old(self).scope_overrides,
                self.outstanding_events == old(self).outstanding_events,
                self.tick_manager == old(self).tick_manager,
                forall|uk: u16| #[trigger]
                    self.connections@.dom().contains(uk) ==> (if keys.take(i as int).contains(uk) {
                        mutation_rel(conns0[uk], self.connections@[uk], component, bit)
                    } else {
                        self.connections@[uk] == conns0[uk]
                    }),
            decreases n - i,
        {
            let uk = user_keys[i];
            let ghost conns_pre = self.connections@;
            proof {
                assert(!keys.take(i as int).contains(uk)) by {
                    if keys.take(i as int).contains(uk) {
                        let a = choose|a: int|
                            0 <= a < i && #[trigger] keys.take(i as int)[a] == uk;
                        assert(keys[a] == keys[i as int]);
                    }
                }
            }
            match self.connections.remove(uk) {
                Some(mut c) => {
                    let ghost c0 = c;
                    let fits = {
                        let dh = &c.entity_manager.diff_handler;
                        match dh.get_diff_mask(component) {
                            Some(m) => bit < m.byte_len() * 8 && m.byte_len() <= 255,
                            None => false,
                        }
                    };
                    if fits {
                        c.entity_manager.diff_handler.notify_mutation(component, bit);
                    }
                    proof {
                        assert(c.entity_manager.component_records@.dom()
                            =~= c.entity_manager.diff_handler@.dom());
                        assert(mutation_rel(c0, c, component, bit));
                    }
                    self.connections.insert(uk, c);
                    proof {
                        assert(self.connections@.dom() =~= conns_pre.dom());
                    }
                },
                None => {
                    proof {
                        assert(false);
                    }
                },
            }
            i = i + 1;
            proof {
                assert(keys.take(i as int) =~= keys.take(i - 1).push(uk));
                assert forall|uk2: u16| #[trigger]
                    self.connections@.dom().contains(uk2) implies (if keys.take(i as int).contains(
                    uk2,
                ) {
                    mutation_rel(conns0[uk2], self.connections@[uk2], component, bit)
                } else {
                    self.connections@[uk2] == conns0[uk2]
                }) by {
                    if keys.take(i as int).contains(uk2) {
                        let a = choose|a: int|
                            0 <= a < i && #[trigger] keys.take(i as int)[a] == uk2;
                        if a < i - 1 {
                            assert(keys.take(i - 1)[a] == uk2);
                            assert(keys.take(i - 1).contains(uk2));
                            assert(uk2 != uk);
                        }
                    } else {
                        assert(!keys.take(i - 1).contains(uk2)) by {
                            if keys.take(i - 1).contains(uk2) {
                                let a = choose|a: int|
                                    0 <= a < i - 1 && #[trigger] keys.take(i - 1)[a] == uk2;
                                assert(keys.take(i as int)[a] == uk2);
                            }
                        }
                        assert(uk2 != uk) by {
                            if uk2 == uk {
                                assert(keys.take(i as int)[i - 1] == uk);
                            }
                        }
                    }
                }
            }
        }
        proof {
            assert(keys.take(n as int) =~= keys);
            assert forall|uk: u16| #[trigger]
                self.connections@.dom().contains(uk) implies mutation_rel(
                old(self).connections@[uk],
                self.connections@[uk],
                component,
                bit,
            ) by {
                assert(conns0.dom().contains(uk));
                assert(keys.contains(uk));
            }
        }
    }

    /// Assign an entity to a user as a pawn: it enters the user's scope
    /// if absent (when it can be spawned), and the ownership action is
    /// queued with the prediction flag set. Other connections and an
    /// unknown user or entity are untouched.
    pub fn assign_pawn_entity(&mut self, user_key: u16, entity: u16)
        requires
            old(self).wf(),
        ensures
            final(self).wf(),
            final(self).connections@.dom() == old(self).connections@.dom(),
            forall|uk: u16|
                final(self).connections@.dom().contains(uk) && uk != user_key ==> final(self).connections@[uk] == old(self).connections@[uk],
            (old(self).connections@.dom().contains(user_key)
                && old(self).world_record.entities_view().dom().contains(entity)) ==> ({
                let pre = old(self).connections@[user_key];
                let post = final(self).connections@[user_key];
                &&& (pre.entity_manager.entity_records@.dom().contains(entity)
                    && !pre.entity_manager.entity_records@[entity].is_prediction
                    ==> post.entity_manager.entity_records@[entity].is_prediction
                        && post.entity_manager.queued() == pre.entity_manager.queued().push(
                        crate::entity_action::ActionView::OwnEntity { entity },
                    ))
                &&& (pre.entity_manager.entity_records@.dom().contains(entity)
                    && pre.entity_manager.entity_records@[entity].is_prediction ==> post == pre)
                &&& (!pre.entity_manager.entity_records@.dom().contains(entity) && spawnable(
                    pre,
                    old(self).world_record,
                    old(self).manifest@,
                    entity,
                ) ==> post.entity_manager.entity_records@.dom().contains(entity)
                    && post.entity_manager.entity_records@[entity].is_prediction)
                &&& post.message_manager == pre.message_manager
                &&& post.ack_manager == pre.ack_manager
            }),
            final(self).world_record == old(self).world_record,
            final(self).users == old(self).users,
            final(self).outstanding_events == old(self).outstanding_events,
    {
        if !self.world_record.has_entity(entity) {
            return ;
        }
        match self.connections.remove(user_key) {
            Some(mut c) => {
                if !c.entity_manager.has_entity(entity) {
                    let _ = self.try_spawn_on_connection(&mut c, entity);
                }
                if c.entity_manager.has_entity(entity) && !c.entity_manager.has_entity_prediction(
                    entity,
                ) {
                    c.entity_manager.add_prediction_entity(entity);
                }
                self.connections.insert(user_key, c);
            },
            None => {},
        }
    }

    /// Take a pawn back from a user; the entity stays in scope and the
    /// disown action is queued. Anything else is untouched.
    pub fn unassign_pawn_entity(&mut self, user_key: u16, entity: u16)
        requires
            old(self).wf(),
        ensures
            final(self).wf(),
            final(self).connections@.dom() == old(self).connections@.dom(),
            forall|uk: u16|
                final(self).connections@.dom().contains(uk) && uk != user_key ==> final(self).connections@[uk] == old(self).connections@[uk],
            old(self).connections@.dom().contains(user_key) ==> ({
                let pre = old(self).connections@[user_key];
                let post = final(self).connections@[user_key];
                &&& (pre.entity_manager.entity_records@.dom().contains(entity)
                    && pre.entity_manager.entity_records@[entity].is_prediction
                    ==> post.entity_manager.entity_records@ == pre.entity_manager.entity_records@.insert(
                    entity,
                    crate::entity_action::LocalEntityRecord {
                        local_key: pre.entity_manager.entity_records@[entity].local_key,
                        status: pre.entity_manager.entity_records@[entity].status,
                        is_prediction: false,
                    },
                ) && post.entity_manager.queued() == pre.entity_manager.queued().push(
                    crate::entity_action::ActionView::DisownEntity { entity },
                ))
                &&& (!(pre.entity_manager.entity_records@.dom().contains(entity)
                    && pre.entity_manager.entity_records@[entity].is_prediction) ==> post == pre)
                &&& post.message_manager == pre.message_manager
                &&& post.ack_manager == pre.ack_manager
            }),
            final(self).world_record == old(self).world_record,
            final(self).users == old(self).users,
            final(self).outstanding_events == old(self).outstanding_events,
    {
        match self.connections.remove(user_key) {
            Some(mut c) => {
                if c.entity_manager.has_entity_prediction(entity) {
                    c.entity_manager.remove_prediction_entity(entity);
                }
                self.connections.insert(user_key, c);
            },
            None => {},
        }
    }

    /// Stop replicating a component everywhere and drop its value.
    pub fn remove_component(&mut self, component: u16) -> (r: Option<Replica>)
        requires
            old(self).wf(),
        ensures
            final(self).wf(),
            final(self).world.components() == old(self).world.components().remove(component),
            r matches Some(rep) ==> old(self).world.components().dom().contains(component)
                && rep@ == old(self).world.components()[component],
            r.is_none() ==> !old(self).world.components().dom().contains(component),
            final(self).connections@.dom() == old(self).connections@.dom(),
            forall|uk: u16| #[trigger]
                final(self).connections@.dom().contains(uk) ==> component_remove_rel(
                    old(self).connections@[uk],
                    final(self).connections@[uk],
                    component,
                ),
            old(self).world_record.components_view().dom().contains(component)
                ==> final(self).world_record.components_view()
                == old(self).world_record.components_view().remove(component)
                && final(self).world_record.entities_view()
                == old(self).world_record.entities_view().insert(
                old(self).world_record.components_view()[component].0,
                old(self).world_record.entities_view()[old(self).world_record.components_view()[component].0].remove(
                    component,
                ),
            ),
            !old(self).world_record.components_view().dom().contains(component)
                ==> final(self).world_record == old(self).world_record,
            final(self).users == old(self).users,
            final(self).rooms == old(self).rooms,
            final(self).outstanding_events == old(self).outstanding_events,
            final(self).tick_manager == old(self).tick_manager,
    {
        let ghost conns0 = self.connections@;
        let user_keys = self.connections.keys();
        let ghost keys = user_keys@;
        let n = user_keys.len();
        let mut i: usize = 0;
        while i < n
            invariant
                i <= n,
                n == keys.len(),
                user_keys@ == keys,
                forall|a: int, b: int| 0 <= a < b < n ==> keys[a] != keys[b],
                forall|a: int| 0 <= a < n ==> conns0.dom().contains(#[trigger] keys[a]),
                forall|uk: u16| conns0.dom().contains(uk) ==> keys.contains(uk),
                conns0 == old(self).connections@,
                self.wf(),
                self.connections@.dom() == conns0.dom(),
                self.world == old(self).world,
                self.world_record == old(self).world_record,
                self.users == old(self).users,
                self.rooms == old(self).rooms,
                self.manifest == old(self).manifest,
                self.scope_overrides == old(self).scope_overrides,
                self.outstanding_events == old(self).outstanding_events,
                self.tick_manager == old(self).tick_manager,
                forall|uk: u16| #[trigger]
                    self.connections@.dom().contains(uk) ==> (if keys.take(i as int).contains(uk) {
                        component_remove_rel(conns0[uk], self.connections@[uk], component)
                    } else {
                        self.connections@[uk] == conns0[uk]
                    }),
            decreases n - i,
        {
            let uk = user_keys[i];
            let ghost conns_pre = self.connections@;
            proof {
                assert(!keys.take(i as int).contains(uk)) by {
                    if keys.take(i as int).contains(uk) {
                        let a = choose|a: int|
                            0 <= a < i && #[trigger] keys.take(i as int)[a] == uk;
                        assert(keys[a] == keys[i as int]);
                    }
                }
            }
            match self.connections.remove(uk) {
                Some(mut c) => {
                    let ghost c0 = c;
                    if c.entity_manager.component_records.contains_key(component) {
                        c.entity_manager.remove_component(component);
                    }
                    self.connections.insert(uk, c);
                    proof {
                        assert(self.connections@.dom() =~= conns_pre.dom());
                        assert(component_remove_rel(c0, c, component));
                    }
                },
                None => {
                    proof {
                        assert(false);
                    }
                },
            }
            i = i + 1;
            proof {
                assert(keys.take(i as int) =~= keys.take(i - 1).push(uk));
                assert forall|uk2: u16| #[trigger]
                    self.connections@.dom().contains(uk2) implies (if keys.take(
                    i as int,
                ).contains(uk2) {
                    component_remove_rel(conns0[uk2], self.connections@[uk2], component)
                } else {
                    self.connections@[uk2] == conns0[uk2]
                }) by {
                    if keys.take(i as int).contains(uk2) {
                        if uk2 != uk {
                            let a = choose|a: int|
                                0 <= a < i && #[trigger] keys.take(i as int)[a] == uk2;
                            assert(a < i - 1) by {
                                if a == i - 1 {
                                    assert(keys.take(i as int)[a] == uk);
                                }
                            }
                            assert(keys.take(i - 1)[a] == uk2);
                            assert(keys.take(i - 1).contains(uk2));
                        }
                    } else {
                        assert(!keys.take(i - 1).contains(uk2)) by {
                            if keys.take(i - 1).contains(uk2) {
                                let a = choose|a: int|
                                    0 <= a < i - 1 && #[trigger] keys.take(i - 1)[a] == uk2;
                                assert(keys.take(i as int)[a] == uk2);
                            }
                        }
                        assert(uk2 != uk) by {
                            if uk2 == uk {
                                assert(keys.take(i as int)[i - 1] == uk);
                            }
                        }
                    }
                }
            }
        }
        proof {
            assert(keys.take(n as int) =~= keys);
            assert forall|uk: u16| #[trigger]
                self.connections@.dom().contains(uk) implies component_remove_rel(
                conns0[uk],
                self.connections@[uk],
                component,
            ) by {
                assert(keys.contains(uk));
            }
        }
        match self.world_record.get_component_record(component) {
            Some(_) => {
                self.world_record.remove_component(component);
                proof {
                    assert(self.world_record.components_view().dom() =~= old(self).world_record.components_view().dom().remove(component));
                }
            },
            None => {},
        }
        self.world.remove_component(component)
    }

    /// Stop replicating an entity everywhere and drop its record; its
    /// components must be removed first. On every connection replicating
    /// it, the despawn begins: the record turns `Deleting` or waits out
    /// its spawn ack in the delayed set.
    pub fn deregister_entity(&mut self, entity: u16)
        requires
            old(self).wf(),
        ensures
            final(self).wf(),
            final(self).connections@.dom() == old(self).connections@.dom(),
            forall|uk: u16| #[trigger]
                final(self).connections@.dom().contains(uk) ==> ({
                    let pre = old(self).connections@[uk];
                    let post = final(self).connections@[uk];
                    &&& (pre.entity_manager.entity_records@.dom().contains(entity)
                        && old(self).world_record.entities_view().dom().contains(entity)
                        ==> post.entity_manager.entity_records@.dom().contains(entity)
                            && (post.entity_manager.entity_records@[entity].status
                            == crate::entity_action::LocalityStatus::Deleting
                            || post.entity_manager.delayed_entity_deletions@.contains(entity)))
                    &&& (!(pre.entity_manager.entity_records@.dom().contains(entity)
                        && old(self).world_record.entities_view().dom().contains(entity)) ==> post
                        == pre)
                    &&& post.message_manager == pre.message_manager
                    &&& post.ack_manager == pre.ack_manager
                }),
            old(self).world_record.entities_view().dom().contains(entity)
                && old(self).world_record.entities_view()[entity] == Set::<u16>::empty() ==> final(self).world_record.entities_view() == old(self).world_record.entities_view().remove(
                entity,
            ),
            final(self).users == old(self).users,
            final(self).outstanding_events == old(self).outstanding_events,
    {
        let ghost conns0 = self.connections@;
        let user_keys = self.connections.keys();
        let ghost keys = user_keys@;
        let n = user_keys.len();
        let mut i: usize = 0;
        while i < n
            invariant
                i <= n,
                n == keys.len(),
                user_keys@ == keys,
                forall|a: int, b: int| 0 <= a < b < n ==> keys[a] != keys[b],
                forall|a: int| 0 <= a < n ==> conns0.dom().contains(#[trigger] keys[a]),
                forall|uk: u16| conns0.dom().contains(uk) ==> keys.contains(uk),
                conns0 == old(self).connections@,
                self.wf(),
                self.connections@.dom() == conns0.dom(),
                self.world_record == old(self).world_record,
                self.world == old(self).world,
                self.users == old(self).users,
                self.rooms == old(self).rooms,
                self.manifest == old(self).manifest,
                self.scope_overrides == old(self).scope_overrides,
                self.outstanding_events == old(self).outstanding_events,
                self.tick_manager == old(self).tick_manager,
                forall|uk: u16| #[trigger]
                    self.connections@.dom().contains(uk) ==> (if keys.take(i as int).contains(uk) {
                        let pre = conns0[uk];
                        let post = self.connections@[uk];
                        &&& (pre.entity_manager.entity_records@.dom().contains(entity)
                            && old(self).world_record.entities_view().dom().contains(entity)
                            ==> post.entity_manager.entity_records@.dom().contains(entity)
                                && (post.entity_manager.entity_records@[entity].status
                                == crate::entity_action::LocalityStatus::Deleting
                                || post.entity_manager.delayed_entity_deletions@.contains(entity)))
                        &&& (!(pre.entity_manager.entity_records@.dom().contains(entity)
                            && old(self).world_record.entities_view().dom().contains(entity))
                            ==> post == pre)
                        &&& post.message_manager == pre.message_manager
                        &&& post.ack_manager == pre.ack_manager
                    } else {
                        self.connections@[uk] == conns0[uk]
                    }),
            decreases n - i,
        {
            let uk = user_keys[i];
            let ghost conns_pre = self.connections@;
            proof {
                assert(!keys.take(i as int).contains(uk)) by {
                    if keys.take(i as int).contains(uk) {
                        let a = choose|a: int|
                            0 <= a < i && #[trigger] keys.take(i as int)[a] == uk;
                        assert(keys[a] == keys[i as int]);
                    }
                }
            }
            match self.connections.remove(uk) {
                Some(mut c) => {
                    let ghost c0 = c;
                    if c.entity_manager.has_entity(entity) && self.world_record.has_entity(
                        entity,
                    ) {
                        c.entity_manager.despawn_entity(&self.world_record, entity);
                    }
                    self.connections.insert(uk, c);
                    proof {
                        assert(self.connections@.dom() =~= conns_pre.dom());
                    }
                },
                None => {
                    proof {
                        assert(false);
                    }
                },
            }
            i = i + 1;
            proof {
                assert(keys.take(i as int) =~= keys.take(i - 1).push(uk));
                assert forall|uk2: u16| #[trigger]
                    self.connections@.dom().contains(uk2) implies (if keys.take(i as int).contains(
                    uk2,
                ) {
                    let pre = conns0[uk2];
                    let post = self.connections@[uk2];
                    &&& (pre.entity_manager.entity_records@.dom().contains(entity)
                        && old(self).world_record.entities_view().dom().contains(entity)
                        ==> post.entity_manager.entity_records@.dom().contains(entity)
                            && (post.entity_manager.entity_records@[entity].status
                            == crate::entity_action::LocalityStatus::Deleting
                            || post.entity_manager.delayed_entity_deletions@.contains(entity)))
                    &&& (!(pre.entity_manager.entity_records@.dom().contains(entity)
                        && old(self).world_record.entities_view().dom().contains(entity)) ==> post
                        == pre)
                    &&& post.message_manager == pre.message_manager
                    &&& post.ack_manager == pre.ack_manager
                } else {
                    self.connections@[uk2] == conns0[uk2]
                }) by {
                    if keys.take(i as int).contains(uk2) {
                        let a = choose|a: int|
                            0 <= a < i && #[trigger] keys.take(i as int)[a] == uk2;
                        if a < i - 1 {
                            assert(keys.take(i - 1)[a] == uk2);
                            assert(keys.take(i - 1).contains(uk2));
                            assert(uk2 != uk);
                        }
                    } else {
                        assert(!keys.take(i - 1).contains(uk2)) by {
                            if keys.take(i - 1).contains(uk2) {
                                let a = choose|a: int|
                                    0 <= a < i - 1 && #[trigger] keys.take(i - 1)[a] == uk2;
                                assert(keys.take(i as int)[a] == uk2);
                            }
                        }
                        assert(uk2 != uk) by {
                            if uk2 == uk {
                                assert(keys.take(i as int)[i - 1] == uk);
                            }
                        }
                    }
                }
            }
        }
        proof {
            assert(keys.take(n as int) =~= keys);
            assert forall|uk: u16| #[trigger]
                self.connections@.dom().contains(uk) implies keys.contains(uk) by {
                assert(conns0.dom().contains(uk));
            }
        }
                match self.world_record.get_component_keys_checked(entity) {
            Some(keys) => {
                if keys.len() == 0 {
                    proof {
                        assert(keys@.to_set() =~= Set::<u16>::empty());
                        assert(self.world_record.entities_view()[entity] =~= Set::<u16>::empty());
                    }
                    self.world_record.despawn_entity(entity);
                    proof {
                        assert(self.world_record.entities_view()
                            =~= old(self).world_record.entities_view().remove(entity));
                    }
                } else {
                    proof {
                        // a nonempty key list names a member of the set
                        assert(keys@.to_set().contains(keys@[0]));
                        assert(self.world_record.entities_view()[entity]
                            != Set::<u16>::empty()) by {
                            assert(self.world_record.entities_view()[entity].contains(keys@[0]));
                        }
                    }
                }
            },
            None => {},
        }
    }

    /// The value a component key currently holds.
    pub fn get_component_by_key(&self, component: u16) -> (r: Option<&Replica>)
        requires
            self.wf(),
        ensures
            match r {
                Some(rep) => self.world.components().dom().contains(component) && rep@
                    == self.world.components()[component],
                None => !self.world.components().dom().contains(component),
            },
    {
        self.world.get_component(component)
    }

    /// Every registered entity key.
    pub fn entities_iter(&self) -> (r: Vec<u16>)
        requires
            self.wf(),
        ensures
            forall|i: int|
                0 <= i < r@.len() ==> self.world_record.entities_view().dom().contains(
                    #[trigger] r@[i],
                ),
    {
        let r = self.world_record.entities.keys();
        proof {
            assert(self.world_record.entities_view().dom() =~= self.world_record.entities@.dom());
        }
        r
    }

    /// Every component key of one entity, in record order.
    pub fn components_iter(&self, entity: u16) -> (r: Vec<u16>)
        requires
            self.wf(),
        ensures
            self.world_record.entities_view().dom().contains(entity) ==> r@.to_set()
                == self.world_record.entities_view()[entity],
    {
        if self.world_record.has_entity(entity) {
            self.world_record.get_component_keys(entity)
        } else {
            Vec::new()
        }
    }

    /// A user's record, while one exists.
    pub fn get_user(&self, user_key: u16) -> (r: Option<&User>)
        requires
            self.wf(),
        ensures
            r.is_some() == self.users@.dom().contains(user_key),
    {
        self.users.get(user_key)
    }

    /// Drop every room membership a departing user holds, so a later
    /// user under a recycled key inherits none of them.
    fn unsubscribe_user(&mut self, user_key: u16)
        requires
            old(self).wf(),
        ensures
            final(self).wf(),
            final(self).rooms@.dom() == old(self).rooms@.dom(),
            forall|rk: u16| #[trigger]
                final(self).rooms@.dom().contains(rk) ==> final(self).rooms@[rk].users@
                    == old(self).rooms@[rk].users@.remove(user_key)
                    && final(self).rooms@[rk].entities == old(self).rooms@[rk].entities,
            final(self).users == old(self).users,
            final(self).connections == old(self).connections,
            final(self).world == old(self).world,
            final(self).world_record == old(self).world_record,
            final(self).outstanding_events == old(self).outstanding_events,
            final(self).tick_manager == old(self).tick_manager,
            final(self).user_key_generator == old(self).user_key_generator,
            final(self).manifest == old(self).manifest,
            final(self).scope_overrides == old(self).scope_overrides,
    {
        let ghost rooms0 = self.rooms@;
        let room_keys = self.rooms.keys();
        let ghost keys = room_keys@;
        let n = room_keys.len();
        let mut i: usize = 0;
        while i < n
            invariant
                i <= n,
                n == keys.len(),
                room_keys@ == keys,
                forall|a: int, b: int| 0 <= a < b < n ==> keys[a] != keys[b],
                forall|a: int| 0 <= a < n ==> rooms0.dom().contains(#[trigger] keys[a]),
                rooms0 == old(self).rooms@,
                self.wf(),
                self.rooms@.dom() == rooms0.dom(),
                forall|rk: u16| #[trigger]
                    self.rooms@.dom().contains(rk) ==> (if keys.take(i as int).contains(rk) {
                        self.rooms@[rk].users@ == rooms0[rk].users@.remove(user_key)
                            && self.rooms@[rk].entities == rooms0[rk].entities
                    } else {
                        self.rooms@[rk] == rooms0[rk]
                    }),
                self.users == old(self).users,
                self.connections == old(self).connections,
                self.world == old(self).world,
                self.world_record == old(self).world_record,
                self.outstanding_events == old(self).outstanding_events,
                self.tick_manager == old(self).tick_manager,
                self.user_key_generator == old(self).user_key_generator,
                self.manifest == old(self).manifest,
                self.scope_overrides == old(self).scope_overrides,
            decreases n - i,
        {
            let rk = room_keys[i];
            let ghost rooms_pre = self.rooms@;
            proof {
                assert(!keys.take(i as int).contains(rk)) by {
                    if keys.take(i as int).contains(rk) {
                        let a = choose|a: int|
                            0 <= a < i && #[trigger] keys.take(i as int)[a] == rk;
                        assert(keys[a] == keys[i as int]);
                    }
                }
            }
            match self.rooms.remove(rk) {
                Some(mut room) => {
                    let _ = room.users.take(user_key);
                    self.rooms.insert(rk, room);
                    proof {
                        assert(self.rooms@.dom() =~= rooms_pre.dom());
                    }
                },
                None => {
                    proof {
                        assert(false);
                    }
                },
            }
            i = i + 1;
            proof {
                assert(keys.take(i as int) =~= keys.take(i - 1).push(rk));
                assert forall|rk2: u16| #[trigger]
                    self.rooms@.dom().contains(rk2) implies (if keys.take(i as int).contains(
                    rk2,
                ) {
                    self.rooms@[rk2].users@ == rooms0[rk2].users@.remove(user_key)
                        && self.rooms@[rk2].entities == rooms0[rk2].entities
                } else {
                    self.rooms@[rk2] == rooms0[rk2]
                }) by {
                    if keys.take(i as int).contains(rk2) {
                        if rk2 != rk {
                            let a = choose|a: int|
                                0 <= a < i && #[trigger] keys.take(i as int)[a] == rk2;
                            assert(a < i - 1);
                            assert(keys.take(i - 1)[a] == rk2);
                            assert(keys.take(i - 1).contains(rk2));
                        }
                    } else {
                        assert(!keys.take(i - 1).contains(rk2)) by {
                            if keys.take(i - 1).contains(rk2) {
                                let a = choose|a: int|
                                    0 <= a < i - 1 && #[trigger] keys.take(i - 1)[a] == rk2;
                                assert(keys.take(i as int)[a] == rk2);
                            }
                        }
                        assert(rk2 != rk) by {
                            if rk2 == rk {
                                assert(keys.take(i as int)[i - 1] == rk);
                            }
                        }
                    }
                }
            }
        }
        proof {
            assert(keys.take(n as int) =~= keys);
        }
    }

    /// Create a room.
    pub fn create_room(&mut self) -> (r: Option<u16>)
        requires
            old(self).wf(),
        ensures
            final(self).wf(),
            r matches Some(rk) ==> final(self).rooms@.dom() == old(self).rooms@.dom().insert(rk),
            r.is_none() ==> final(self).rooms@ == old(self).rooms@,
    {
        if !self.room_key_generator.check_can_generate() {
            return None;
        }
        let rk = self.room_key_generator.generate();
        if self.rooms.contains_key(rk) {
            return None;
        }
        self.rooms.insert(rk, Room { users: KeySet::new(), entities: KeySet::new() });
        proof {
            assert(self.rooms@.dom() =~= old(self).rooms@.dom().insert(rk));
        }
        Some(rk)
    }

    /// Delete a room.
    pub fn delete_room(&mut self, room_key: u16)
        requires
            old(self).wf(),
        ensures
            final(self).wf(),
            final(self).rooms@ == old(self).rooms@.remove(room_key),
    {
        let _ = self.rooms.remove(room_key);
    }

    /// Subscribe a user to a room.
    pub fn room_add_user(&mut self, room_key: u16, user_key: u16)
        requires
            old(self).wf(),
        ensures
            final(self).wf(),
            old(self).rooms@.dom().contains(room_key) ==> final(self).rooms@.dom() == old(self).rooms@.dom() && final(self).rooms@[room_key].users@ == old(self).rooms@[room_key].users@.insert(user_key),
    {
        match self.rooms.remove(room_key) {
            Some(mut room) => {
                room.users.insert(user_key);
                self.rooms.insert(room_key, room);
                proof {
                    assert(self.rooms@.dom() =~= old(self).rooms@.dom());
                }
            },
            None => {},
        }
    }

    /// Unsubscribe a user from a room.
    pub fn room_remove_user(&mut self, room_key: u16, user_key: u16)
        requires
            old(self).wf(),
        ensures
            final(self).wf(),
            old(self).rooms@.dom().contains(room_key) ==> final(self).rooms@.dom() == old(self).rooms@.dom() && final(self).rooms@[room_key].users@ == old(self).rooms@[room_key].users@.remove(user_key),
    {
        match self.rooms.remove(room_key) {
            Some(mut room) => {
                let _ = room.users.take(user_key);
                self.rooms.insert(room_key, room);
                proof {
                    assert(self.rooms@.dom() =~= old(self).rooms@.dom());
                }
            },
            None => {},
        }
    }

    /// Put an entity in a room.
    pub fn room_add_entity(&mut self, room_key: u16, entity: u16)
        requires
            old(self).wf(),
        ensures
            final(self).wf(),
            old(self).rooms@.dom().contains(room_key) ==> final(self).rooms@.dom() == old(self).rooms@.dom() && final(self).rooms@[room_key].entities@ == old(self).rooms@[room_key].entities@.insert(entity),
    {
        match self.rooms.remove(room_key) {
            Some(mut room) => {
                room.entities.insert(entity);
                self.rooms.insert(room_key, room);
                proof {
                    assert(self.rooms@.dom() =~= old(self).rooms@.dom());
                }
            },
            None => {},
        }
    }

    /// Take an entity out of a room.
    pub fn room_remove_entity(&mut self, room_key: u16, entity: u16)
        requires
            old(self).wf(),
        ensures
            final(self).wf(),
            old(self).rooms@.dom().contains(room_key) ==> final(self).rooms@.dom() == old(self).rooms@.dom() && final(self).rooms@[room_key].entities@ == old(self).rooms@[room_key].entities@.remove(entity),
    {
        match self.rooms.remove(room_key) {
            Some(mut room) => {
                let _ = room.entities.take(entity);
                self.rooms.insert(room_key, room);
                proof {
                    assert(self.rooms@.dom() =~= old(self).rooms@.dom());
                }
            },
            None => {},
        }
    }

    /// Override whether an entity is in scope for a user in a room; the
    /// latest override wins.
    pub fn entity_set_scope(&mut self, room_key: u16, user_key: u16, entity: u16, in_scope: bool)
        requires
            old(self).wf(),
        ensures
            final(self).wf(),
            final(self).scope_overrides@ == old(self).scope_overrides@.push(
                (room_key, user_key, entity, in_scope),
            ),
            scope_lookup(final(self).scope_overrides@, room_key, user_key, entity) == Some(
                in_scope,
            ),
    {
        self.scope_overrides.push((room_key, user_key, entity, in_scope));
    }

    /// Whether an entity currently replicates to a user.
    pub fn user_scope_has_entity(&self, user_key: u16, entity: u16) -> (r: bool)
        requires
            self.wf(),
        ensures
            r == (self.connections@.dom().contains(user_key)
                && self.connections@[user_key].entity_manager.entity_records@.dom().contains(
                entity,
            )),
    {
        match self.connections.get(user_key) {
            Some(c) => c.entity_manager.has_entity(entity),
            None => false,
        }
    }

    /// The number of users with a live record.
    pub fn get_users_count(&self) -> (r: usize)
        ensures
            r == self.users.entries@.len(),
    {
        self.users.len()
    }

    /// The number of rooms.
    pub fn get_rooms_count(&self) -> (r: usize)
        ensures
            r == self.rooms.entries@.len(),
    {
        self.rooms.len()
    }

    /// Every (room, user, entity) combination room membership produces:
    /// the domain over which scope is decided.
    pub fn entity_scope_sets(&self) -> (r: Vec<(u16, u16, u16)>)
        requires
            self.wf(),
        ensures
            forall|i: int|
                0 <= i < r@.len() ==> self.rooms@.dom().contains((#[trigger] r@[i]).0),
    {
        let mut list: Vec<(u16, u16, u16)> = Vec::new();
        let room_keys = self.rooms.keys();
        let mut ri: usize = 0;
        while ri < room_keys.len()
            invariant
                self.wf(),
                forall|i: int|
                    0 <= i < list@.len() ==> self.rooms@.dom().contains((#[trigger] list@[i]).0),
                forall|i: int|
                    0 <= i < room_keys@.len() ==> self.rooms@.dom().contains(
                        #[trigger] room_keys@[i],
                    ),
            decreases room_keys@.len() - ri,
        {
            let rk = room_keys[ri];
            match self.rooms.get(rk) {
                Some(room) => {
                    let mut ui: usize = 0;
                    while ui < room.users.items.len()
                        invariant
                            self.wf(),
                            self.rooms@.dom().contains(rk),
                            forall|i: int|
                                0 <= i < list@.len() ==> self.rooms@.dom().contains(
                                    (#[trigger] list@[i]).0,
                                ),
                        decreases room.users.items@.len() - ui,
                    {
                        let uk = room.users.items[ui];
                        let mut ei: usize = 0;
                        while ei < room.entities.items.len()
                            invariant
                                self.wf(),
                                self.rooms@.dom().contains(rk),
                                forall|i: int|
                                    0 <= i < list@.len() ==> self.rooms@.dom().contains(
                                        (#[trigger] list@[i]).0,
                                    ),
                            decreases room.entities.items@.len() - ei,
                        {
                            list.push((rk, uk, room.entities.items[ei]));
                            ei = ei + 1;
                        }
                        ui = ui + 1;
                    }
                },
                None => {},
            }
            ri = ri + 1;
        }
        list
    }

    /// The value of an entity's component of one kind, while one exists.
    pub fn get_component_by_kind(&self, entity: u16, kind: u16) -> (r: Option<&Replica>)
        requires
            self.wf(),
        ensures
            r matches Some(rep) ==> rep@.kind == kind,
    {
        if !self.world_record.has_entity(entity) {
            return None;
        }
        let keys = self.world_record.get_component_keys(entity);
        let mut i: usize = 0;
        while i < keys.len()
            invariant
                self.wf(),
                forall|a: int|
                    0 <= a < keys@.len() ==> self.world_record.components_view().dom().contains(
                        #[trigger] keys@[a],
                    ),
            decreases keys@.len() - i,
        {
            let ck = keys[i];
            match self.world_record.get_component_record(ck) {
                Some((_, k)) => {
                    if k == kind {
                        match self.world.get_component(ck) {
                            Some(rep) => {
                                if rep.kind() == kind {
                                    return Some(rep);
                                }
                            },
                            None => {},
                        }
                    }
                },
                None => {},
            }
            i = i + 1;
        }
        None
    }

    /// A room, while one exists.
    pub fn get_room(&self, room_key: u16) -> (r: Option<&Room>)
        requires
            self.wf(),
        ensures
            r.is_some() == self.rooms@.dom().contains(room_key),
    {
        self.rooms.get(room_key)
    }

    /// Every live room key.
    pub fn rooms_iter(&self) -> (r: Vec<u16>)
        requires
            self.wf(),
        ensures
            forall|i: int|
                0 <= i < r@.len() ==> self.rooms@.dom().contains(#[trigger] r@[i]),
    {
        self.rooms.keys()
    }

    /// Every live user key.
    pub fn users_iter(&self) -> (r: Vec<u16>)
        requires
            self.wf(),
        ensures
            forall|i: int|
                0 <= i < r@.len() ==> self.users@.dom().contains(#[trigger] r@[i]),
    {
        self.users.keys()
    }

    /// Register an entity together with its first components.
    pub fn register_entity_with_components(&mut self, components: Vec<Replica>) -> (r: Option<u16>)
        requires
            old(self).wf(),
        ensures
            final(self).wf(),
            r matches Some(e) ==> final(self).world_record.entities_view().dom().contains(e),
    {
        let entity = match self.register_entity() {
            Some(e) => e,
            None => {
                return None;
            },
        };
        let mut i: usize = 0;
        let n = components.len();
        let mut values = components;
        while i < n
            invariant
                self.wf(),
                self.world_record.entities_view().dom().contains(entity),
            decreases values@.len(),
        {
            let value = match values.pop() {
                Some(v) => v,
                None => {
                    break ;
                },
            };
            let _ = self.add_component_to_entity(entity, value);
        }
        Some(entity)
    }

    /// Drain the events that accumulated since the last call, oldest
    /// first, then every connection's received messages in table order,
    /// with a tick event appended when the reported time advanced the
    /// clock. Nothing else moves.
    pub fn receive(&mut self, elapsed_ms: u64) -> (r: Vec<ServerEvent>)
        requires
            old(self).wf(),
            elapsed_ms < 0x1000000,
            old(self).tick_manager.accum_ms < 0x1000000,
        ensures
            final(self).wf(),
            r@ == old(self).outstanding_events@ + connection_message_events(
                old(self).connections.entries@,
            ) + (if old(self).tick_manager.interval_ms matches Some(iv) && old(self).tick_manager.accum_ms
                + elapsed_ms >= iv {
                seq![ServerEvent::Tick]
            } else {
                Seq::<ServerEvent>::empty()
            }),
            final(self).outstanding_events@ == Seq::<ServerEvent>::empty(),
            final(self).connections@.dom() == old(self).connections@.dom(),
            forall|uk: u16| #[trigger]
                final(self).connections@.dom().contains(uk) ==> ({
                    let pre = old(self).connections@[uk];
                    let post = final(self).connections@[uk];
                    &&& post.message_manager.incoming() == Seq::<crate::replica::ReplicaView>::empty()
                    &&& post.message_manager.outgoing() == pre.message_manager.outgoing()
                    &&& post.message_manager.sent() == pre.message_manager.sent()
                    &&& post.entity_manager == pre.entity_manager
                    &&& post.ack_manager == pre.ack_manager
                    &&& post.heartbeat_timer == pre.heartbeat_timer
                    &&& post.timeout_timer == pre.timeout_timer
                    &&& post.last_received_tick == pre.last_received_tick
                }),
            final(self).users == old(self).users,
            final(self).rooms == old(self).rooms,
            final(self).world == old(self).world,
            final(self).world_record == old(self).world_record,
    {
        let mut events: Vec<ServerEvent> = Vec::new();
        loop
            invariant
                self.wf(),
                events@ + self.outstanding_events@ == old(self).outstanding_events@,
                self.connections == old(self).connections,
                self.tick_manager == old(self).tick_manager,
                self.users == old(self).users,
                self.rooms == old(self).rooms,
                self.world == old(self).world,
                self.world_record == old(self).world_record,
            ensures
                self.outstanding_events@.len() == 0,
                events@ == old(self).outstanding_events@,
                self.wf(),
                self.connections == old(self).connections,
                self.tick_manager == old(self).tick_manager,
                self.users == old(self).users,
                self.rooms == old(self).rooms,
                self.world == old(self).world,
                self.world_record == old(self).world_record,
            decreases self.outstanding_events@.len(),
        {
            match self.outstanding_events.pop_front() {
                Some(e) => {
                    events.push(e);
                    proof {
                        assert(events@ + self.outstanding_events@
                            =~= old(self).outstanding_events@);
                    }
                },
                None => {
                    proof {
                        assert(events@ =~= old(self).outstanding_events@);
                    }
                    break ;
                },
            }
        }
        // incoming messages from every connection, in table order
        let ghost entries0 = self.connections.entries@;
        let user_keys = self.connections.keys();
        let ghost keys = user_keys@;
        let n = user_keys.len();
        let mut i: usize = 0;
        proof {
            assert(entries0.take(0) =~= Seq::<(u16, ClientConnection)>::empty());
            assert(events@ + connection_message_events(entries0.take(0))
                =~= old(self).outstanding_events@);
        }
        while i < n
            invariant
                i <= n,
                n == keys.len(),
                n == entries0.len(),
                user_keys@ == keys,
                crate::keyed_vec::keys_unique(entries0),
                forall|a: int| 0 <= a < n ==> #[trigger] keys[a] == entries0[a].0,
                forall|a: int, b: int| 0 <= a < b < n ==> keys[a] != keys[b],
                entries0 == old(self).connections.entries@,
                self.wf(),
                self.outstanding_events@.len() == 0,
                self.tick_manager == old(self).tick_manager,
                self.users == old(self).users,
                self.rooms == old(self).rooms,
                self.world == old(self).world,
                self.world_record == old(self).world_record,
                events@ == old(self).outstanding_events@ + connection_message_events(
                    entries0.take(i as int),
                ),
                self.connections@.dom() == old(self).connections@.dom(),
                forall|uk: u16| #[trigger]
                    self.connections@.dom().contains(uk) ==> (if keys.take(i as int).contains(uk) {
                        let pre = old(self).connections@[uk];
                        let post = self.connections@[uk];
                        &&& post.message_manager.incoming() == Seq::<
                            crate::replica::ReplicaView,
                        >::empty()
                        &&& post.message_manager.outgoing() == pre.message_manager.outgoing()
                        &&& post.message_manager.sent() == pre.message_manager.sent()
                        &&& post.entity_manager == pre.entity_manager
                        &&& post.ack_manager == pre.ack_manager
                        &&& post.heartbeat_timer == pre.heartbeat_timer
                        &&& post.timeout_timer == pre.timeout_timer
                        &&& post.last_received_tick == pre.last_received_tick
                    } else {
                        self.connections@[uk] == old(self).connections@[uk]
                    }),
            decreases n - i,
        {
            let uk = user_keys[i];
            let ghost conns_pre = self.connections@;
            proof {
                crate::keyed_vec::lemma_entries_map_at(entries0, i as int);
                assert(old(self).connections@.dom().contains(uk));
                assert(old(self).connections@[uk] == entries0[i as int].1);
                assert(!keys.take(i as int).contains(uk)) by {
                    if keys.take(i as int).contains(uk) {
                        let a = choose|a: int|
                            0 <= a < i && #[trigger] keys.take(i as int)[a] == uk;
                        assert(keys[a] == keys[i as int]);
                    }
                }
                assert(self.connections@[uk] == old(self).connections@[uk]);
            }
            match self.connections.remove(uk) {
                Some(mut c) => {
                    let ghost incoming0 = c.message_manager.queued_incoming_messages@;
                    let ghost events_base = events@;
                    loop
                        invariant
                            c.wf(),
                            events@ + c.message_manager.queued_incoming_messages@.map_values(
                                |m: Replica| ServerEvent::Message { user: uk, message: m },
                            ) == events_base + incoming0.map_values(
                                |m: Replica| ServerEvent::Message { user: uk, message: m },
                            ),
                            c.message_manager.outgoing() == entries0[i as int].1.message_manager.outgoing(),
                            c.message_manager.sent() == entries0[i as int].1.message_manager.sent(),
                            c.entity_manager == entries0[i as int].1.entity_manager,
                            c.ack_manager == entries0[i as int].1.ack_manager,
                            c.heartbeat_timer == entries0[i as int].1.heartbeat_timer,
                            c.timeout_timer == entries0[i as int].1.timeout_timer,
                            c.last_received_tick == entries0[i as int].1.last_received_tick,
                        ensures
                            c.wf(),
                            c.message_manager.incoming() == Seq::<
                                crate::replica::ReplicaView,
                            >::empty(),
                            events@ == events_base + incoming0.map_values(
                                |m: Replica| ServerEvent::Message { user: uk, message: m },
                            ),
                            c.message_manager.outgoing() == entries0[i as int].1.message_manager.outgoing(),
                            c.message_manager.sent() == entries0[i as int].1.message_manager.sent(),
                            c.entity_manager == entries0[i as int].1.entity_manager,
                            c.ack_manager == entries0[i as int].1.ack_manager,
                            c.heartbeat_timer == entries0[i as int].1.heartbeat_timer,
                            c.timeout_timer == entries0[i as int].1.timeout_timer,
                            c.last_received_tick == entries0[i as int].1.last_received_tick,
                        decreases c.message_manager.incoming().len(),
                    {
                        let ghost q_pre = c.message_manager.queued_incoming_messages@;
                        match c.message_manager.pop_incoming_message() {
                            Some(m) => {
                                proof {
                                    assert(q_pre.len() > 0);
                                    assert(m == q_pre[0]);
                                }
                                events.push(ServerEvent::Message { user: uk, message: m });
                                proof {
                                    assert(c.message_manager.queued_incoming_messages@
                                        =~= q_pre.drop_first());
                                    assert(events@ + c.message_manager.queued_incoming_messages@.map_values(
                                        |m2: Replica| ServerEvent::Message {
                                            user: uk,
                                            message: m2,
                                        },
                                    ) =~= events_base + incoming0.map_values(
                                        |m2: Replica| ServerEvent::Message {
                                            user: uk,
                                            message: m2,
                                        },
                                    ));
                                }
                            },
                            None => {
                                proof {
                                    assert(c.message_manager.queued_incoming_messages@.len() == 0);
                                    assert(c.message_manager.incoming() =~= Seq::<
                                        crate::replica::ReplicaView,
                                    >::empty());
                                    assert(events@ =~= events_base + incoming0.map_values(
                                        |m2: Replica| ServerEvent::Message {
                                            user: uk,
                                            message: m2,
                                        },
                                    ));
                                }
                                break ;
                            },
                        }
                    }
                    self.connections.insert(uk, c);
                },
                None => {
                    proof {
                        assert(false);
                    }
                },
            }
            i = i + 1;
            proof {
                assert(entries0.take(i as int).drop_last() =~= entries0.take(i - 1));
                assert(entries0.take(i as int).last() == entries0[i - 1]);
                assert(events@ =~= old(self).outstanding_events@ + connection_message_events(
                    entries0.take(i as int),
                ));
                assert(keys.take(i as int) =~= keys.take(i - 1).push(uk));
                assert forall|uk2: u16| #[trigger]
                    self.connections@.dom().contains(uk2) implies (if keys.take(i as int).contains(
                    uk2,
                ) {
                    let pre = old(self).connections@[uk2];
                    let post = self.connections@[uk2];
                    &&& post.message_manager.incoming() == Seq::<
                        crate::replica::ReplicaView,
                    >::empty()
                    &&& post.message_manager.outgoing() == pre.message_manager.outgoing()
                    &&& post.message_manager.sent() == pre.message_manager.sent()
                    &&& post.entity_manager == pre.entity_manager
                    &&& post.ack_manager == pre.ack_manager
                    &&& post.heartbeat_timer == pre.heartbeat_timer
                    &&& post.timeout_timer == pre.timeout_timer
                    &&& post.last_received_tick == pre.last_received_tick
                } else {
                    self.connections@[uk2] == old(self).connections@[uk2]
                }) by {
                    if keys.take(i as int).contains(uk2) {
                        let a = choose|a: int|
                            0 <= a < i && #[trigger] keys.take(i as int)[a] == uk2;
                        if a < i - 1 {
                            assert(keys.take(i - 1)[a] == uk2);
                            assert(keys.take(i - 1).contains(uk2));
                            assert(uk2 != uk);
                        }
                    } else {
                        assert(!keys.take(i - 1).contains(uk2)) by {
                            if keys.take(i - 1).contains(uk2) {
                                let a = choose|a: int|
                                    0 <= a < i - 1 && #[trigger] keys.take(i - 1)[a] == uk2;
                                assert(keys.take(i as int)[a] == uk2);
                            }
                        }
                        assert(uk2 != uk) by {
                            if uk2 == uk {
                                assert(keys.take(i as int)[i - 1] == uk);
                            }
                        }
                    }
                }
            }
        }
        proof {
            assert(entries0.take(n as int) =~= entries0);
            assert(keys.take(n as int) =~= keys);
        }
        let ticked = self.tick_manager.register_elapsed(elapsed_ms);
        if ticked {
            events.push(ServerEvent::Tick);
        }
        proof {
            assert(self.outstanding_events@ =~= Seq::<ServerEvent>::empty());
            if old(self).tick_manager.interval_ms.is_some() {
                let iv = old(self).tick_manager.interval_ms.unwrap();
                if old(self).tick_manager.accum_ms + elapsed_ms >= iv {
                    assert(ticked);
                    assert(events@ =~= old(self).outstanding_events@ + connection_message_events(
                        entries0,
                    ) + seq![ServerEvent::Tick]);
                } else {
                    assert(!ticked);
                    assert(events@ =~= old(self).outstanding_events@ + connection_message_events(
                        entries0,
                    ) + Seq::<ServerEvent>::empty());
                }
            } else {
                assert(!ticked);
                assert(events@ =~= old(self).outstanding_events@ + connection_message_events(
                    entries0,
                ) + Seq::<ServerEvent>::empty());
            }
        }
        events
    }

    /// Advance every connection's timers by the reported time. A
    /// connection silent past its timeout is dropped together with its
    /// user and a disconnection event queued, in table order; the dead
    /// user leaves every room and its key returns to the generator.
    /// Every other connection keeps its state with both timers advanced.
    pub fn register_elapsed(&mut self, ms: u64)
        requires
            old(self).wf(),
        ensures
            final(self).wf(),
            final(self).outstanding_events@ == old(self).outstanding_events@ + disconnect_events(
                old(self).connections.entries@,
                ms,
            ),
            forall|uk: u16| #[trigger]
                old(self).connections@.dom().contains(uk) ==> (if times_out(
                    old(self).connections@[uk],
                    ms,
                ) {
                    !final(self).connections@.dom().contains(uk) && !final(self).users@.dom().contains(
                        uk,
                    ) && (old(self).users@.dom().contains(uk)
                        ==> final(self).user_key_generator.is_free(uk))
                } else {
                    final(self).connections@.dom().contains(uk)
                        && final(self).connections@[uk].message_manager == old(self).connections@[uk].message_manager
                        && final(self).connections@[uk].entity_manager == old(self).connections@[uk].entity_manager
                        && final(self).connections@[uk].ack_manager == old(self).connections@[uk].ack_manager
                        && final(self).connections@[uk].last_received_tick == old(self).connections@[uk].last_received_tick
                }),
            forall|uk: u16| #[trigger]
                final(self).connections@.dom().contains(uk) ==> old(self).connections@.dom().contains(
                    uk,
                ),
            forall|uk: u16| #[trigger]
                final(self).users@.dom().contains(uk) ==> old(self).users@.dom().contains(uk),
            final(self).rooms@.dom() == old(self).rooms@.dom(),
            forall|rk: u16| #[trigger]
                final(self).rooms@.dom().contains(rk) ==> final(self).rooms@[rk].users@
                    == old(self).rooms@[rk].users@.difference(timed_out_users(*old(self), ms))
                    && final(self).rooms@[rk].entities == old(self).rooms@[rk].entities,
            final(self).world == old(self).world,
            final(self).world_record == old(self).world_record,
            final(self).tick_manager == old(self).tick_manager,
    {
        let ghost entries0 = self.connections.entries@;
        let user_keys = self.connections.keys();
        let ghost keys = user_keys@;
        let n = user_keys.len();
        let mut i: usize = 0;
        proof {
            assert(entries0.take(0) =~= Seq::<(u16, ClientConnection)>::empty());
            assert(self.outstanding_events@ =~= old(self).outstanding_events@ + disconnect_events(
                entries0.take(0),
                ms,
            ));
            assert forall|rk: u16| #[trigger]
                self.rooms@.dom().contains(rk) implies self.rooms@[rk].users@
                == old(self).rooms@[rk].users@.difference(
                timed_out_among(*old(self), ms, keys.take(0)),
            ) by {
                assert(self.rooms@[rk].users@ =~= old(self).rooms@[rk].users@.difference(
                    timed_out_among(*old(self), ms, keys.take(0)),
                ));
            }
        }
        while i < n
            invariant
                i <= n,
                n == keys.len(),
                n == entries0.len(),
                user_keys@ == keys,
                crate::keyed_vec::keys_unique(entries0),
                forall|a: int| 0 <= a < n ==> #[trigger] keys[a] == entries0[a].0,
                entries0 == old(self).connections.entries@,
                self.wf(),
                self.rooms@.dom() == old(self).rooms@.dom(),
                forall|rk: u16| #[trigger]
                    self.rooms@.dom().contains(rk) ==> self.rooms@[rk].users@
                        == old(self).rooms@[rk].users@.difference(
                        timed_out_among(*old(self), ms, keys.take(i as int)),
                    ) && self.rooms@[rk].entities == old(self).rooms@[rk].entities,
                forall|uk: u16|
                    old(self).users@.dom().contains(uk) && !keys.take(i as int).contains(uk)
                        ==> #[trigger] self.users@.dom().contains(uk),
                forall|uk: u16| #[trigger]
                    keys.take(i as int).contains(uk) && old(self).connections@.dom().contains(uk)
                        && times_out(old(self).connections@[uk], ms)
                        && old(self).users@.dom().contains(uk)
                        ==> self.user_key_generator.is_free(uk),
                self.world == old(self).world,
                self.world_record == old(self).world_record,
                self.tick_manager == old(self).tick_manager,
                self.manifest == old(self).manifest,
                self.scope_overrides == old(self).scope_overrides,
                self.outstanding_events@ == old(self).outstanding_events@ + disconnect_events(
                    entries0.take(i as int),
                    ms,
                ),
                forall|uk: u16| #[trigger]
                    old(self).connections@.dom().contains(uk) ==> (if keys.take(i as int).contains(
                        uk,
                    ) {
                        if times_out(old(self).connections@[uk], ms) {
                            !self.connections@.dom().contains(uk) && !self.users@.dom().contains(uk)
                        } else {
                            self.connections@.dom().contains(uk)
                                && self.connections@[uk].message_manager == old(self).connections@[uk].message_manager
                                && self.connections@[uk].entity_manager == old(self).connections@[uk].entity_manager
                                && self.connections@[uk].ack_manager == old(self).connections@[uk].ack_manager
                                && self.connections@[uk].last_received_tick == old(self).connections@[uk].last_received_tick
                        }
                    } else {
                        self.connections@.dom().contains(uk) && self.connections@[uk] == old(self).connections@[uk]
                    }),
                forall|uk: u16| #[trigger]
                    self.connections@.dom().contains(uk) ==> old(self).connections@.dom().contains(
                        uk,
                    ),
                forall|uk: u16| #[trigger]
                    self.users@.dom().contains(uk) ==> old(self).users@.dom().contains(uk),
            decreases n - i,
        {
            let uk = user_keys[i];
            proof {
                crate::keyed_vec::lemma_entries_map_at(entries0, i as int);
                assert(old(self).connections@.dom().contains(uk));
                assert(old(self).connections@[uk] == entries0[i as int].1);
                assert(!keys.take(i as int).contains(uk)) by {
                    if keys.take(i as int).contains(uk) {
                        let a = choose|a: int|
                            0 <= a < i && #[trigger] keys.take(i as int)[a] == uk;
                        assert(entries0[a].0 == entries0[i as int].0);
                    }
                }
                assert(self.connections@.dom().contains(uk));
                assert(self.connections@[uk] == old(self).connections@[uk]);
            }
            match self.connections.remove(uk) {
                Some(mut c) => {
                    c.timeout_timer.register_elapsed(ms);
                    c.heartbeat_timer.register_elapsed(ms);
                    if c.timeout_timer.ringing() {
                        // the connection timed out: drop it whole
                        proof {
                            assert(times_out(old(self).connections@[uk], ms));
                        }
                        match self.users.remove(uk) {
                            Some(_) => {
                                self.user_key_generator.recycle_key(uk);
                                proof {
                                    assert(self.user_key_generator.is_free(uk));
                                    assert forall|uk2: u16| #[trigger]
                                        self.users@.dom().contains(uk2)
                                        implies !self.user_key_generator.is_free(uk2) by {
                                        assert(uk2 != uk);
                                    }
                                }
                            },
                            None => {},
                        }
                        self.unsubscribe_user(uk);
                        self.outstanding_events.push_back(
                            ServerEvent::Disconnection { user: uk },
                        );
                    } else {
                        proof {
                            assert(!times_out(old(self).connections@[uk], ms));
                        }
                        self.connections.insert(uk, c);
                    }
                },
                None => {
                    proof {
                        assert(false);
                    }
                },
            }
            i = i + 1;
            proof {
                assert(entries0.take(i as int).drop_last() =~= entries0.take(i - 1));
                assert(entries0.take(i as int).last() == entries0[i - 1]);
                assert(self.outstanding_events@ =~= old(self).outstanding_events@
                    + disconnect_events(entries0.take(i as int), ms));
                assert(keys.take(i as int) =~= keys.take(i - 1).push(uk));
                let prevset = timed_out_among(*old(self), ms, keys.take(i - 1));
                let curset = timed_out_among(*old(self), ms, keys.take(i as int));
                if times_out(old(self).connections@[uk], ms) {
                    assert(curset =~= prevset.insert(uk)) by {
                        assert forall|x: u16| #[trigger]
                            curset.contains(x) implies prevset.insert(uk).contains(x) by {
                            if x != uk {
                                let a = choose|a: int|
                                    0 <= a < i && #[trigger] keys.take(i as int)[a] == x;
                                assert(a < i - 1) by {
                                    if a == i - 1 {
                                        assert(keys.take(i as int)[a] == uk);
                                    }
                                }
                                assert(keys.take(i - 1)[a] == x);
                                assert(keys.take(i - 1).contains(x));
                            }
                        }
                        assert forall|x: u16| #[trigger]
                            prevset.insert(uk).contains(x) implies curset.contains(x) by {
                            if x == uk {
                                assert(keys.take(i as int)[i - 1] == uk);
                                assert(keys.take(i as int).contains(uk));
                            } else {
                                let a = choose|a: int|
                                    0 <= a < i - 1 && #[trigger] keys.take(i - 1)[a] == x;
                                assert(keys.take(i as int)[a] == x);
                                assert(keys.take(i as int).contains(x));
                            }
                        }
                    }
                    assert forall|rk: u16| #[trigger]
                        self.rooms@.dom().contains(rk) implies self.rooms@[rk].users@
                        == old(self).rooms@[rk].users@.difference(curset)
                        && self.rooms@[rk].entities == old(self).rooms@[rk].entities by {
                        assert(self.rooms@[rk].users@ =~= old(self).rooms@[rk].users@.difference(
                            curset,
                        ));
                    }
                } else {
                    assert(curset =~= prevset) by {
                        assert forall|x: u16| #[trigger]
                            curset.contains(x) implies prevset.contains(x) by {
                            assert(x != uk);
                            let a = choose|a: int|
                                0 <= a < i && #[trigger] keys.take(i as int)[a] == x;
                            assert(a < i - 1) by {
                                if a == i - 1 {
                                    assert(keys.take(i as int)[a] == uk);
                                }
                            }
                            assert(keys.take(i - 1)[a] == x);
                            assert(keys.take(i - 1).contains(x));
                        }
                        assert forall|x: u16| #[trigger]
                            prevset.contains(x) implies curset.contains(x) by {
                            let a = choose|a: int|
                                0 <= a < i - 1 && #[trigger] keys.take(i - 1)[a] == x;
                            assert(keys.take(i as int)[a] == x);
                            assert(keys.take(i as int).contains(x));
                        }
                    }
                }
                assert forall|uk2: u16|
                    old(self).users@.dom().contains(uk2) && !keys.take(i as int).contains(uk2)
                    implies #[trigger] self.users@.dom().contains(uk2) by {
                    assert(!keys.take(i - 1).contains(uk2)) by {
                        if keys.take(i - 1).contains(uk2) {
                            let a = choose|a: int|
                                0 <= a < i - 1 && #[trigger] keys.take(i - 1)[a] == uk2;
                            assert(keys.take(i as int)[a] == uk2);
                        }
                    }
                    assert(uk2 != uk) by {
                        if uk2 == uk {
                            assert(keys.take(i as int)[i - 1] == uk);
                        }
                    }
                }
                assert forall|uk2: u16| #[trigger]
                    keys.take(i as int).contains(uk2) && old(self).connections@.dom().contains(
                    uk2,
                ) && times_out(old(self).connections@[uk2], ms) && old(self).users@.dom().contains(
                    uk2,
                ) implies self.user_key_generator.is_free(uk2) by {
                    if uk2 != uk {
                        assert(keys.take(i - 1).contains(uk2)) by {
                            let a = choose|a: int|
                                0 <= a < i && #[trigger] keys.take(i as int)[a] == uk2;
                            assert(a < i - 1) by {
                                if a == i - 1 {
                                    assert(keys.take(i as int)[a] == uk);
                                }
                            }
                            assert(keys.take(i - 1)[a] == uk2);
                        }
                    }
                }
                assert forall|uk2: u16| #[trigger]
                    old(self).connections@.dom().contains(uk2) implies (if keys.take(
                    i as int,
                ).contains(uk2) {
                    if times_out(old(self).connections@[uk2], ms) {
                        !self.connections@.dom().contains(uk2) && !self.users@.dom().contains(uk2)
                    } else {
                        self.connections@.dom().contains(uk2)
                            && self.connections@[uk2].message_manager == old(self).connections@[uk2].message_manager
                            && self.connections@[uk2].entity_manager == old(self).connections@[uk2].entity_manager
                            && self.connections@[uk2].ack_manager == old(self).connections@[uk2].ack_manager
                            && self.connections@[uk2].last_received_tick == old(self).connections@[uk2].last_received_tick
                    }
                } else {
                    self.connections@.dom().contains(uk2) && self.connections@[uk2] == old(self).connections@[uk2]
                }) by {
                    if keys.take(i as int).contains(uk2) {
                        let a = choose|a: int|
                            0 <= a < i && #[trigger] keys.take(i as int)[a] == uk2;
                        if a < i - 1 {
                            assert(keys.take(i - 1)[a] == uk2);
                            assert(keys.take(i - 1).contains(uk2));
                            assert(uk2 != uk) by {
                                assert(entries0[a].0 == keys[a]);
                            }
                        }
                    } else {
                        assert(!keys.take(i - 1).contains(uk2)) by {
                            if keys.take(i - 1).contains(uk2) {
                                let a = choose|a: int|
                                    0 <= a < i - 1 && #[trigger] keys.take(i - 1)[a] == uk2;
                                assert(keys.take(i as int)[a] == uk2);
                            }
                        }
                        assert(uk2 != uk) by {
                            if uk2 == uk {
                                assert(keys.take(i as int)[i - 1] == uk);
                            }
                        }
                    }
                }
            }
        }
        proof {
            assert(entries0.take(n as int) =~= entries0);
            assert(keys.take(n as int) =~= keys);
            assert forall|uk: u16| #[trigger]
                old(self).connections@.dom().contains(uk) implies keys.contains(uk) by {
                crate::keyed_vec::lemma_entries_map_dom(entries0, uk);
                let a = choose|a: int| 0 <= a < entries0.len() && entries0[a].0 == uk;
                assert(keys[a] == uk);
            }
            assert(timed_out_among(*old(self), ms, keys) =~= timed_out_users(*old(self), ms));
            assert forall|rk: u16| #[trigger]
                self.rooms@.dom().contains(rk) implies self.rooms@[rk].users@
                == old(self).rooms@[rk].users@.difference(timed_out_users(*old(self), ms)) by {
                assert(self.rooms@[rk].users@ =~= old(self).rooms@[rk].users@.difference(
                    timed_out_users(*old(self), ms),
                ));
            }
        }
    }

    /// Process one incoming header-framed datagram from a connected
    /// user: the header's acknowledgements fold into both managers per
    /// `process_incoming_header`; a data packet's message block joins the
    /// incoming queue whole or not at all; a ping is answered with a pong
    /// echoing its body. A short datagram or an unknown user changes
    /// nothing.
    pub fn process_packet(&mut self, user_key: u16, payload: Vec<u8>) -> (reply: Option<Vec<u8>>)
        requires
            old(self).wf(),
        ensures
            final(self).wf(),
            payload@.len() < 11 ==> final(self).connections@ == old(self).connections@
                && reply.is_none() && final(self).outstanding_events == old(self).outstanding_events,
            payload@.len() >= 11 && !old(self).connections@.dom().contains(user_key) ==> final(self).connections@ == old(self).connections@ && reply.is_none(),
            payload@.len() >= 11 && old(self).connections@.dom().contains(user_key) ==> ({
                let b = payload@;
                let ptype = PacketType::spec_from_u8(b[0]);
                &&& final(self).connections@.dom() == old(self).connections@.dom()
                &&& (forall|uk: u16|
                    final(self).connections@.dom().contains(uk) && uk != user_key ==> final(self).connections@[uk] == old(self).connections@[uk])
                &&& final(self).connections@[user_key].last_received_tick == crate::bytes::u16_from_be(
                    b[9],
                    b[10],
                )
                &&& final(self).connections@[user_key].timeout_timer.elapsed_ms == 0
                &&& (ptype != PacketType::Ping ==> ({
                    // the header's acknowledgements resolve on the ack ledger
                    let hdr_ack = crate::bytes::u16_from_be(b[3], b[4]);
                    let hdr_bf = crate::bytes::u32_from_be(b[5], b[6], b[7], b[8]);
                    let out0 = old(self).connections@[user_key].ack_manager.outstanding@;
                    let delivered = ack_named(hdr_ack, hdr_bf).intersect(out0);
                    let droppedset = out0.difference(delivered).filter(
                        |p: u16| crate::seq::wrap_diff_spec(p, hdr_ack) > 32,
                    );
                    final(self).connections@[user_key].ack_manager.outstanding@ == out0.difference(
                        delivered,
                    ).difference(droppedset)
                }))
                &&& (ptype == PacketType::Data ==> match crate::message_manager::parse_message_block(
                    old(self).manifest@,
                    b.skip(11),
                ) {
                    Some(msgs) => final(self).connections@[user_key].message_manager.incoming()
                        == old(self).connections@[user_key].message_manager.incoming() + msgs,
                    None => final(self).connections@[user_key].message_manager.incoming() == old(self).connections@[user_key].message_manager.incoming(),
                })
                &&& (ptype == PacketType::Ping ==> (reply matches Some(rep) && rep@.len() == b.len()
                    && rep@.skip(11) == b.skip(11)))
                &&& (ptype != PacketType::Ping ==> reply.is_none())
            }),
    {
        let ghost b = payload@;
        let mut reader = PacketReader::new(payload);
        let header = match StandardHeader::read(&mut reader) {
            Some(h) => h,
            None => {
                return None;
            },
        };
        let mut reply: Option<Vec<u8>> = None;
        match self.connections.remove(user_key) {
            Some(mut c) => {
                c.process_incoming_header(&header, &self.world_record);
                match header.packet_type {
                    PacketType::Data => {
                        let ghost inc_mid = c.message_manager.incoming();
                        let _ = c.message_manager.process_data(&mut reader, &self.manifest);
                        proof {
                            assert(inc_mid == old(self).connections@[user_key].message_manager.incoming());
                        }
                    },
                    PacketType::Ping => {
                        let mut body: Vec<u8> = Vec::new();
                        let ghost rest = reader.remaining();
                        loop
                            invariant
                                reader.wf(),
                                body@ + reader.remaining() == rest,
                            ensures
                                reader.wf(),
                                body@ == rest,
                            decreases reader.remaining().len(),
                        {
                            match reader.read_u8() {
                                Some(byte) => {
                                    body.push(byte);
                                    proof {
                                        assert(body@ + reader.remaining() =~= rest);
                                    }
                                },
                                None => {
                                    proof {
                                        assert(body@ =~= rest);
                                    }
                                    break ;
                                },
                            }
                        }
                        let framed = c.frame_outgoing(
                            PacketType::Pong,
                            self.tick_manager.get_tick(),
                            &body,
                        );
                        proof {
                            assert(framed@.skip(11) =~= b.skip(11));
                        }
                        reply = Some(framed);
                    },
                    _ => {},
                }
                self.connections.insert(user_key, c);
                proof {
                    assert(self.connections@.dom() =~= old(self).connections@.dom());
                }
            },
            None => {
                proof {
                    assert(self.connections@ =~= old(self).connections@);
                }
            },
        }
        reply
    }

    /// Recompute scope (per `scope_pass_rel`), collect updates, and
    /// assemble one outgoing data packet — or a due heartbeat — per
    /// connection: the caller sends each returned payload to its user.
    pub fn send_all_updates(&mut self) -> (r: Vec<(u16, Vec<u8>)>)
        requires
            old(self).wf(),
        ensures
            final(self).wf(),
            exists|mid: Map<u16, ClientConnection>|
                #[trigger] scope_pass_rel(
                    old(self).connections@,
                    mid,
                    old(self).world_record,
                    old(self).manifest@,
                    old(self).scope_overrides@,
                    room_triples(old(self).rooms.entries@),
                ) && final(self).connections@.dom() == mid.dom(),
            final(self).connections@.dom() == old(self).connections@.dom(),
            forall|a: int|
                0 <= a < r@.len() ==> final(self).connections@.dom().contains(
                    (#[trigger] r@[a]).0,
                ),
            forall|uk: u16| #[trigger]
                old(self).connections@.dom().contains(uk) && owes_packet(
                    old(self).connections@[uk],
                ) ==> exists|a: int| 0 <= a < r@.len() && (#[trigger] r@[a]).0 == uk,
            forall|a: int| 0 <= a < r@.len() ==> (#[trigger] r@[a]).1@.len() >= 11,
            forall|a: int|
                0 <= a < r@.len() ==> ({
                    let b = (#[trigger] r@[a]).1@;
                    let pre = old(self).connections@[r@[a].0];
                    &&& (b[0] == PacketType::Data.spec_to_u8() || b[0]
                        == PacketType::Heartbeat.spec_to_u8())
                    &&& b.subrange(1, 3) == crate::bytes::u16_be_bytes(
                        pre.ack_manager.sequence_number,
                    )
                    &&& b.subrange(3, 5) == crate::bytes::u16_be_bytes(
                        pre.ack_manager.last_remote_seq,
                    )
                    &&& b.subrange(9, 11) == crate::bytes::u16_be_bytes(old(self).tick_manager.tick)
                }),
            final(self).users == old(self).users,
            final(self).rooms == old(self).rooms,
            final(self).world == old(self).world,
            final(self).world_record == old(self).world_record,
            final(self).outstanding_events == old(self).outstanding_events,
    {
        self.update_entity_scopes();
        let ghost mid_conns = self.connections@;
        proof {
            lemma_scope_pass_dom(
                old(self).connections@,
                mid_conns,
                old(self).world_record,
                old(self).manifest@,
                old(self).scope_overrides@,
                room_triples(old(self).rooms.entries@),
            );
            lemma_scope_pass_frames(
                old(self).connections@,
                mid_conns,
                old(self).world_record,
                old(self).manifest@,
                old(self).scope_overrides@,
                room_triples(old(self).rooms.entries@),
            );
        }
        let mut out: Vec<(u16, Vec<u8>)> = Vec::new();
        let user_keys = self.connections.keys();
        let ghost keys = user_keys@;
        let n = user_keys.len();
        let mut i: usize = 0;
        while i < n
            invariant
                i <= n,
                n == keys.len(),
                user_keys@ == keys,
                forall|a: int, b: int| 0 <= a < b < n ==> keys[a] != keys[b],
                forall|a: int| 0 <= a < keys.len() ==> mid_conns.dom().contains(#[trigger] keys[a]),
                forall|uk: u16| mid_conns.dom().contains(uk) ==> keys.contains(uk),
                self.wf(),
                self.connections@.dom() == mid_conns.dom(),
                forall|a: int|
                    0 <= a < out@.len() ==> self.connections@.dom().contains(
                        (#[trigger] out@[a]).0,
                    ),
                forall|a: int| 0 <= a < out@.len() ==> (#[trigger] out@[a]).1@.len() >= 11,
                forall|a: int|
                    0 <= a < out@.len() ==> ({
                        let b = (#[trigger] out@[a]).1@;
                        let pre = mid_conns[out@[a].0];
                        &&& (b[0] == PacketType::Data.spec_to_u8() || b[0]
                            == PacketType::Heartbeat.spec_to_u8())
                        &&& b.subrange(1, 3) == crate::bytes::u16_be_bytes(
                            pre.ack_manager.sequence_number,
                        )
                        &&& b.subrange(3, 5) == crate::bytes::u16_be_bytes(
                            pre.ack_manager.last_remote_seq,
                        )
                        &&& b.subrange(9, 11) == crate::bytes::u16_be_bytes(
                            old(self).tick_manager.tick,
                        )
                    }),
                forall|uk: u16| #[trigger]
                    keys.take(i as int).contains(uk) && mid_conns.dom().contains(uk)
                        && owes_packet(mid_conns[uk]) ==> exists|a: int|
                        0 <= a < out@.len() && (#[trigger] out@[a]).0 == uk,
                forall|uk: u16|
                    self.connections@.dom().contains(uk) && !keys.take(i as int).contains(uk)
                        ==> #[trigger] self.connections@[uk] == mid_conns[uk],
                self.users == old(self).users,
                self.rooms == old(self).rooms,
                self.world == old(self).world,
                self.world_record == old(self).world_record,
                self.manifest == old(self).manifest,
                self.scope_overrides == old(self).scope_overrides,
                self.tick_manager == old(self).tick_manager,
                self.outstanding_events == old(self).outstanding_events,
            decreases n - i,
        {
            let uk = user_keys[i];
            proof {
                assert(!keys.take(i as int).contains(uk)) by {
                    if keys.take(i as int).contains(uk) {
                        let a = choose|a: int|
                            0 <= a < i && #[trigger] keys.take(i as int)[a] == uk;
                        assert(keys[a] == keys[i as int]);
                    }
                }
                assert(self.connections@.dom().contains(uk));
                assert(self.connections@[uk] == mid_conns[uk]);
            }
            let ghost out_pre = out@;
            match self.connections.remove(uk) {
                Some(mut c) => {
                    let sendable = forall_components_known(&c.entity_manager, &self.world_record);
                    if sendable {
                        c.entity_manager.collect_component_updates(&self.world_record);
                    }
                    let ghost c_mid = c;
                    let payload = self.write_connection_packet(&mut c);
                    self.connections.insert(uk, c);
                    proof {
                        assert(self.connections@.dom() =~= mid_conns.dom());
                        assert(c_mid.message_manager == mid_conns[uk].message_manager);
                        assert(c_mid.heartbeat_timer == mid_conns[uk].heartbeat_timer);
                        assert(c_mid.ack_manager == mid_conns[uk].ack_manager);
                    }
                    match payload {
                        Some(p) => {
                            proof {
                                let (bfw, bodyw): (u32, Seq<u8>) = choose|bf: u32, body: Seq<u8>|
                                    #![trigger bit32(bf, 0), body.len()]
                                    p@.len() == 11 + body.len() && bit32(bf, 0)
                                        == c_mid.ack_manager.received.spec_get(
                                        crate::connection::seq_back(
                                            c_mid.ack_manager.last_remote_seq,
                                            1,
                                        ),
                                    ).is_some() && (forall|j: u32|
                                        j < 32 ==> #[trigger] bit32(bf, j)
                                            == c_mid.ack_manager.received.spec_get(
                                            crate::connection::seq_back(
                                                c_mid.ack_manager.last_remote_seq,
                                                j + 1,
                                            ),
                                        ).is_some()) && (p@ == (StandardHeader {
                                        packet_type: PacketType::Data,
                                        sequence: c_mid.ack_manager.sequence_number,
                                        ack: c_mid.ack_manager.last_remote_seq,
                                        ack_bitfield: bf,
                                        host_tick: self.tick_manager.tick,
                                    }).wire_bytes() + body || p@ == (StandardHeader {
                                        packet_type: PacketType::Heartbeat,
                                        sequence: c_mid.ack_manager.sequence_number,
                                        ack: c_mid.ack_manager.last_remote_seq,
                                        ack_bitfield: bf,
                                        host_tick: self.tick_manager.tick,
                                    }).wire_bytes() + body);
                                let hd = (StandardHeader {
                                    packet_type: PacketType::Data,
                                    sequence: c_mid.ack_manager.sequence_number,
                                    ack: c_mid.ack_manager.last_remote_seq,
                                    ack_bitfield: bfw,
                                    host_tick: self.tick_manager.tick,
                                });
                                let hh = (StandardHeader {
                                    packet_type: PacketType::Heartbeat,
                                    sequence: c_mid.ack_manager.sequence_number,
                                    ack: c_mid.ack_manager.last_remote_seq,
                                    ack_bitfield: bfw,
                                    host_tick: self.tick_manager.tick,
                                });
                                assert(hd.wire_bytes().len() == 11);
                                assert(hh.wire_bytes().len() == 11);
                                if p@ == hd.wire_bytes() + bodyw {
                                    assert(p@[0] == PacketType::Data.spec_to_u8());
                                    assert(p@.subrange(1, 3) =~= crate::bytes::u16_be_bytes(
                                        c_mid.ack_manager.sequence_number,
                                    ));
                                    assert(p@.subrange(3, 5) =~= crate::bytes::u16_be_bytes(
                                        c_mid.ack_manager.last_remote_seq,
                                    ));
                                    assert(p@.subrange(9, 11) =~= crate::bytes::u16_be_bytes(
                                        self.tick_manager.tick,
                                    ));
                                } else {
                                    assert(p@ == hh.wire_bytes() + bodyw);
                                    assert(p@[0] == PacketType::Heartbeat.spec_to_u8());
                                    assert(p@.subrange(1, 3) =~= crate::bytes::u16_be_bytes(
                                        c_mid.ack_manager.sequence_number,
                                    ));
                                    assert(p@.subrange(3, 5) =~= crate::bytes::u16_be_bytes(
                                        c_mid.ack_manager.last_remote_seq,
                                    ));
                                    assert(p@.subrange(9, 11) =~= crate::bytes::u16_be_bytes(
                                        self.tick_manager.tick,
                                    ));
                                }
                            }
                            out.push((uk, p));
                            proof {
                                assert(out@ == out_pre.push((uk, p)));
                                assert forall|a: int| 0 <= a < out@.len() implies ({
                                    let b = (#[trigger] out@[a]).1@;
                                    let pre = mid_conns[out@[a].0];
                                    &&& (b[0] == PacketType::Data.spec_to_u8() || b[0]
                                        == PacketType::Heartbeat.spec_to_u8())
                                    &&& b.subrange(1, 3) == crate::bytes::u16_be_bytes(
                                        pre.ack_manager.sequence_number,
                                    )
                                    &&& b.subrange(3, 5) == crate::bytes::u16_be_bytes(
                                        pre.ack_manager.last_remote_seq,
                                    )
                                    &&& b.subrange(9, 11) == crate::bytes::u16_be_bytes(
                                        old(self).tick_manager.tick,
                                    )
                                }) by {
                                    if a < out_pre.len() {
                                        assert(out@[a] == out_pre[a]);
                                    } else {
                                        assert(out@[a] == (uk, p));
                                    }
                                }
                            }
                        },
                        None => {
                            proof {
                                assert(!owes_packet(mid_conns[uk]));
                            }
                        },
                    }
                },
                None => {
                    proof {
                        assert(false);
                    }
                },
            }
            i = i + 1;
            proof {
                assert(keys.take(i as int) =~= keys.take(i - 1).push(uk));
                assert forall|uk2: u16| #[trigger]
                    keys.take(i as int).contains(uk2) && mid_conns.dom().contains(uk2)
                        && owes_packet(mid_conns[uk2]) implies exists|a: int|
                    0 <= a < out@.len() && (#[trigger] out@[a]).0 == uk2 by {
                    if uk2 != uk {
                        assert(keys.take(i - 1).contains(uk2)) by {
                            let a = choose|a: int|
                                0 <= a < i && #[trigger] keys.take(i as int)[a] == uk2;
                            assert(a < i - 1) by {
                                if a == i - 1 {
                                    assert(keys.take(i as int)[a] == uk);
                                }
                            }
                            assert(keys.take(i - 1)[a] == uk2);
                        }
                        let a2 = choose|a2: int|
                            0 <= a2 < out_pre.len() && (#[trigger] out_pre[a2]).0 == uk2;
                        assert(out@[a2] == out_pre[a2]);
                    } else {
                        assert(out@[out@.len() - 1].0 == uk);
                    }
                }
                assert forall|uk2: u16|
                    self.connections@.dom().contains(uk2) && !keys.take(i as int).contains(uk2)
                    implies #[trigger] self.connections@[uk2] == mid_conns[uk2] by {
                    assert(!keys.take(i - 1).contains(uk2)) by {
                        if keys.take(i - 1).contains(uk2) {
                            let a = choose|a: int|
                                0 <= a < i - 1 && #[trigger] keys.take(i - 1)[a] == uk2;
                            assert(keys.take(i as int)[a] == uk2);
                        }
                    }
                    assert(uk2 != uk) by {
                        if uk2 == uk {
                            assert(keys.take(i as int)[i - 1] == uk);
                        }
                    }
                }
            }
        }
        proof {
            assert(keys.take(n as int) =~= keys);
            assert forall|uk: u16| #[trigger]
                old(self).connections@.dom().contains(uk) && owes_packet(
                old(self).connections@[uk],
            ) implies exists|a: int| 0 <= a < out@.len() && (#[trigger] out@[a]).0 == uk by {
                assert(mid_conns.dom().contains(uk));
                assert(keys.contains(uk));
                assert(mid_conns[uk].message_manager == old(self).connections@[uk].message_manager);
                assert(mid_conns[uk].heartbeat_timer == old(self).connections@[uk].heartbeat_timer);
                assert(owes_packet(mid_conns[uk]));
            }
            assert forall|a: int| 0 <= a < out@.len() implies ({
                let b = (#[trigger] out@[a]).1@;
                let pre = old(self).connections@[out@[a].0];
                &&& (b[0] == PacketType::Data.spec_to_u8() || b[0]
                    == PacketType::Heartbeat.spec_to_u8())
                &&& b.subrange(1, 3) == crate::bytes::u16_be_bytes(
                    pre.ack_manager.sequence_number,
                )
                &&& b.subrange(3, 5) == crate::bytes::u16_be_bytes(
                    pre.ack_manager.last_remote_seq,
                )
                &&& b.subrange(9, 11) == crate::bytes::u16_be_bytes(old(self).tick_manager.tick)
            }) by {
                let uk2 = out@[a].0;
                assert(self.connections@.dom().contains(uk2));
                assert(mid_conns[uk2].ack_manager == old(self).connections@[uk2].ack_manager);
            }
        }
        out
    }

    /// Serialize one data packet for a connection: queued messages first,
    /// then entity actions, under the MTU; an action that does not fit is
    /// unpopped and waits for the next packet.
    fn write_connection_packet(&self, c: &mut ClientConnection) -> (r: Option<Vec<u8>>)
        requires
            old(c).wf(),
            self.wf(),
        ensures
            final(c).wf(),
            (old(c).message_manager.outgoing().len() > 0
                && old(c).message_manager.outgoing()[0].1.properties.len() + 5 < 508)
                ==> r.is_some(),
            old(c).heartbeat_timer.elapsed_ms >= old(c).heartbeat_timer.duration_ms
                ==> r.is_some(),
            r matches Some(p) ==> p@.len() >= 11 && final(c).heartbeat_timer.elapsed_ms == 0
                && final(c).ack_manager.sequence_number
                == crate::entity_manager::EntityManager::wrap_inc(
                old(c).ack_manager.sequence_number,
            ) && final(c).ack_manager.outstanding@ == old(c).ack_manager.outstanding@.insert(
                old(c).ack_manager.sequence_number,
            ) && (exists|bf: u32, body: Seq<u8>|
                #![trigger bit32(bf, 0), body.len()]
                p@.len() == 11 + body.len() && bit32(bf, 0)
                    == old(c).ack_manager.received.spec_get(
                    crate::connection::seq_back(old(c).ack_manager.last_remote_seq, 1),
                ).is_some() && (forall|j: u32|
                    j < 32 ==> #[trigger] bit32(bf, j) == old(c).ack_manager.received.spec_get(
                        crate::connection::seq_back(old(c).ack_manager.last_remote_seq, j + 1),
                    ).is_some()) && (p@ == (StandardHeader {
                    packet_type: PacketType::Data,
                    sequence: old(c).ack_manager.sequence_number,
                    ack: old(c).ack_manager.last_remote_seq,
                    ack_bitfield: bf,
                    host_tick: self.tick_manager.tick,
                }).wire_bytes() + body || p@ == (StandardHeader {
                    packet_type: PacketType::Heartbeat,
                    sequence: old(c).ack_manager.sequence_number,
                    ack: old(c).ack_manager.last_remote_seq,
                    ack_bitfield: bf,
                    host_tick: self.tick_manager.tick,
                }).wire_bytes() + body)),
            r.is_none() ==> final(c).ack_manager == old(c).ack_manager
                && final(c).heartbeat_timer == old(c).heartbeat_timer
                && final(c).message_manager.outgoing() == old(c).message_manager.outgoing(),
            exists|k: int|
                0 <= k <= old(c).message_manager.outgoing().len()
                    && #[trigger] final(c).message_manager.outgoing()
                    == old(c).message_manager.outgoing().skip(k),
            final(c).timeout_timer == old(c).timeout_timer,
            final(c).last_received_tick == old(c).last_received_tick,
    {
        let mut writer = PacketWriter::new();
        let packet_index = c.ack_manager.sequence_number;
        let ghost out0 = c.message_manager.outgoing();
        proof {
            assert(out0.skip(0) =~= out0);
        }
        // messages first
        loop
            invariant
                c.wf(),
                writer.used() <= MTU_SIZE as int,
                exists|k: int|
                    #![trigger out0.skip(k)]
                    0 <= k <= out0.len() && c.message_manager.outgoing() == out0.skip(k),
                c.ack_manager == old(c).ack_manager,
                c.heartbeat_timer == old(c).heartbeat_timer,
                c.timeout_timer == old(c).timeout_timer,
                c.entity_manager == old(c).entity_manager,
                c.last_received_tick == old(c).last_received_tick,
                out0 == old(c).message_manager.outgoing(),
                packet_index == old(c).ack_manager.sequence_number,
                writer.message_count == 0 ==> (c.message_manager.outgoing() == out0
                    && writer.used() == 0),
                writer.entity_action_count == 0,
            ensures
                c.wf(),
                writer.used() <= MTU_SIZE as int,
                exists|k: int|
                    #![trigger out0.skip(k)]
                    0 <= k <= out0.len() && c.message_manager.outgoing() == out0.skip(k),
                c.ack_manager == old(c).ack_manager,
                c.heartbeat_timer == old(c).heartbeat_timer,
                c.timeout_timer == old(c).timeout_timer,
                c.entity_manager == old(c).entity_manager,
                c.last_received_tick == old(c).last_received_tick,
                writer.entity_action_count == 0,
                (out0.len() > 0 && out0[0].1.properties.len() + 5 < 508) ==> writer.message_count
                    > 0,
                writer.message_count == 0 ==> (c.message_manager.outgoing() == out0
                    && writer.used() == 0),
            decreases c.message_manager.outgoing().len(),
        {
            if !c.message_manager.has_outgoing_messages() {
                proof {
                    assert(c.message_manager.outgoing().len() == 0);
                }
                break ;
            }
            let ghost out_pre = c.message_manager.outgoing();
            let message = match c.message_manager.pop_outgoing_message(packet_index) {
                Some(m) => m,
                None => {
                    break ;
                },
            };
            let written = writer.write_message(&message);
            if !written {
                c.message_manager.unpop_outgoing_message(packet_index, message);
                proof {
                    assert(c.message_manager.outgoing() =~= out_pre);
                    if out0.len() > 0 && out0[0].1.properties.len() + 5 < 508
                        && writer.message_count == 0 {
                        // an empty writer always takes a fitting first message
                        assert(out_pre == out0);
                        assert(message@ == out0[0].1);
                        assert(false);
                    }
                }
                break ;
            }
            proof {
                let k0 = choose|k: int| 0 <= k <= out0.len() && out_pre == out0.skip(k);
                assert(c.message_manager.outgoing() =~= out0.skip(k0 + 1)) by {
                    assert(c.message_manager.outgoing() =~= out_pre.drop_first());
                    assert(out0.skip(k0).drop_first() =~= out0.skip(k0 + 1));
                }
            }
        }
        c.write_entity_actions(&self.world, &self.world_record, &mut writer);
        if writer.has_bytes() {
            let body = writer.get_packet_bytes();
            let ghost c_mid = *c;
            let framed = c.frame_outgoing(
                PacketType::Data,
                self.tick_manager.tick,
                &body,
            );
            proof {
                let bf = choose|bf: u32|
                    (forall|i: u32|
                        i < 32 ==> #[trigger] bit32(bf, i) == c_mid.ack_manager.received.spec_get(
                            crate::connection::seq_back(c_mid.ack_manager.last_remote_seq, i + 1),
                        ).is_some()) && framed@ == (StandardHeader {
                        packet_type: PacketType::Data,
                        sequence: c_mid.ack_manager.sequence_number,
                        ack: c_mid.ack_manager.last_remote_seq,
                        ack_bitfield: bf,
                        host_tick: self.tick_manager.tick,
                    }).wire_bytes() + body@;
                assert(bit32(bf, 0) == old(c).ack_manager.received.spec_get(
                    crate::connection::seq_back(old(c).ack_manager.last_remote_seq, 1),
                ).is_some());
                assert(body@.len() >= 0);
            }
            Some(framed)
        } else if c.heartbeat_timer.ringing() {
            // a silent connection still proves it is alive
            let body: Vec<u8> = Vec::new();
            let ghost c_mid = *c;
            let framed = c.frame_outgoing(
                PacketType::Heartbeat,
                self.tick_manager.tick,
                &body,
            );
            proof {
                let bf = choose|bf: u32|
                    (forall|i: u32|
                        i < 32 ==> #[trigger] bit32(bf, i) == c_mid.ack_manager.received.spec_get(
                            crate::connection::seq_back(c_mid.ack_manager.last_remote_seq, i + 1),
                        ).is_some()) && framed@ == (StandardHeader {
                        packet_type: PacketType::Heartbeat,
                        sequence: c_mid.ack_manager.sequence_number,
                        ack: c_mid.ack_manager.last_remote_seq,
                        ack_bitfield: bf,
                        host_tick: self.tick_manager.tick,
                    }).wire_bytes() + body@;
                assert(bit32(bf, 0) == old(c).ack_manager.received.spec_get(
                    crate::connection::seq_back(old(c).ack_manager.last_remote_seq, 1),
                ).is_some());
                assert(body@.len() >= 0);
                assert(framed@ =~= (StandardHeader {
                    packet_type: PacketType::Heartbeat,
                    sequence: old(c).ack_manager.sequence_number,
                    ack: old(c).ack_manager.last_remote_seq,
                    ack_bitfield: bf,
                    host_tick: self.tick_manager.tick,
                }).wire_bytes() + Seq::<u8>::empty());
            }
            Some(framed)
        } else {
            None
        }
    }

    /// Bring every connection's scope in line with room membership: for
    /// each room, member user and room entity, in table order, the
    /// connection's replication state is brought to the triple's scope
    /// verdict per `scope_pass_rel` — spawned on entry when possible,
    /// marked for deletion on exit.
    pub fn update_entity_scopes(&mut self)
        requires
            old(self).wf(),
        ensures
            final(self).wf(),
            scope_pass_rel(
                old(self).connections@,
                final(self).connections@,
                old(self).world_record,
                old(self).manifest@,
                old(self).scope_overrides@,
                room_triples(old(self).rooms.entries@),
            ),
            final(self).users == old(self).users,
            final(self).rooms == old(self).rooms,
            final(self).world == old(self).world,
            final(self).world_record == old(self).world_record,
            final(self).manifest == old(self).manifest,
            final(self).scope_overrides == old(self).scope_overrides,
            final(self).tick_manager == old(self).tick_manager,
            final(self).outstanding_events == old(self).outstanding_events,
    {
        let ghost conns0 = old(self).connections@;
        let ghost room_entries = self.rooms.entries@;
        let room_keys = self.rooms.keys();
        let ghost rkeys = room_keys@;
        let nr = room_keys.len();
        let mut ri: usize = 0;
        proof {
            assert(room_triples(room_entries.take(0)) =~= Seq::<(u16, u16, u16)>::empty());
        }
        while ri < nr
            invariant
                ri <= nr,
                nr == rkeys.len(),
                nr == room_entries.len(),
                room_keys@ == rkeys,
                room_entries == old(self).rooms.entries@,
                crate::keyed_vec::keys_unique(room_entries),
                forall|a: int| 0 <= a < nr ==> #[trigger] rkeys[a] == room_entries[a].0,
                self.wf(),
                self.users == old(self).users,
                self.rooms == old(self).rooms,
                self.world == old(self).world,
                self.world_record == old(self).world_record,
                self.manifest == old(self).manifest,
                self.scope_overrides == old(self).scope_overrides,
                self.tick_manager == old(self).tick_manager,
                self.outstanding_events == old(self).outstanding_events,
                scope_pass_rel(
                    conns0,
                    self.connections@,
                    old(self).world_record,
                    old(self).manifest@,
                    old(self).scope_overrides@,
                    room_triples(room_entries.take(ri as int)),
                ),
            decreases nr - ri,
        {
            let rk = room_keys[ri];
            proof {
                crate::keyed_vec::lemma_entries_map_at(room_entries, ri as int);
                assert(self.rooms@.dom().contains(rk));
                assert(self.rooms@[rk] == room_entries[ri as int].1);
            }
            let (room_users, room_entities) = match self.rooms.get(rk) {
                Some(room) => {
                    let mut us: Vec<u16> = Vec::new();
                    let mut a: usize = 0;
                    while a < room.users.items.len()
                        invariant
                            a <= room.users.items@.len(),
                            us@ == room.users.items@.take(a as int),
                        decreases room.users.items@.len() - a,
                    {
                        us.push(room.users.items[a]);
                        a = a + 1;
                        assert(us@ =~= room.users.items@.take(a as int));
                    }
                    let mut es: Vec<u16> = Vec::new();
                    let mut b: usize = 0;
                    while b < room.entities.items.len()
                        invariant
                            b <= room.entities.items@.len(),
                            es@ == room.entities.items@.take(b as int),
                        decreases room.entities.items@.len() - b,
                    {
                        es.push(room.entities.items[b]);
                        b = b + 1;
                        assert(es@ =~= room.entities.items@.take(b as int));
                    }
                    proof {
                        assert(us@ =~= room.users.items@);
                        assert(es@ =~= room.entities.items@);
                    }
                    (us, es)
                },
                None => (Vec::new(), Vec::new()),
            };
            let ghost users_seq = room_users@;
            let ghost entities_seq = room_entities@;
            proof {
                assert(users_seq == room_entries[ri as int].1.users.items@);
                assert(entities_seq == room_entries[ri as int].1.entities.items@);
                assert(user_triples(rk, users_seq.take(0), entities_seq) =~= Seq::<
                    (u16, u16, u16),
                >::empty());
            }
            let ghost base = room_triples(room_entries.take(ri as int));
            let mut ui: usize = 0;
            while ui < room_users.len()
                invariant
                    ui <= users_seq.len(),
                    room_users@ == users_seq,
                    room_entities@ == entities_seq,
                    self.wf(),
                    self.users == old(self).users,
                    self.rooms == old(self).rooms,
                    self.world == old(self).world,
                    self.world_record == old(self).world_record,
                    self.manifest == old(self).manifest,
                    self.scope_overrides == old(self).scope_overrides,
                    self.tick_manager == old(self).tick_manager,
                    self.outstanding_events == old(self).outstanding_events,
                    scope_pass_rel(
                        conns0,
                        self.connections@,
                        old(self).world_record,
                        old(self).manifest@,
                        old(self).scope_overrides@,
                        base + user_triples(rk, users_seq.take(ui as int), entities_seq),
                    ),
                decreases users_seq.len() - ui,
            {
                let uk = room_users[ui];
                let ghost ubase = base + user_triples(rk, users_seq.take(ui as int), entities_seq);
                proof {
                    assert(entity_triples(rk, uk, entities_seq.take(0)) =~= Seq::<
                        (u16, u16, u16),
                    >::empty());
                    assert(ubase + entity_triples(rk, uk, entities_seq.take(0)) =~= ubase);
                }
                let mut ei: usize = 0;
                while ei < room_entities.len()
                    invariant
                        ei <= entities_seq.len(),
                        room_entities@ == entities_seq,
                        self.wf(),
                        self.users == old(self).users,
                        self.rooms == old(self).rooms,
                        self.world == old(self).world,
                        self.world_record == old(self).world_record,
                        self.manifest == old(self).manifest,
                        self.scope_overrides == old(self).scope_overrides,
                        self.tick_manager == old(self).tick_manager,
                        self.outstanding_events == old(self).outstanding_events,
                        scope_pass_rel(
                            conns0,
                            self.connections@,
                            old(self).world_record,
                            old(self).manifest@,
                            old(self).scope_overrides@,
                            ubase + entity_triples(rk, uk, entities_seq.take(ei as int)),
                        ),
                    decreases entities_seq.len() - ei,
                {
                    let entity = room_entities[ei];
                    let ghost conns_pre = self.connections@;
                    self.apply_scope(rk, uk, entity);
                    ei = ei + 1;
                    proof {
                        lemma_scope_pass_snoc(
                            conns0,
                            conns_pre,
                            self.connections@,
                            old(self).world_record,
                            old(self).manifest@,
                            old(self).scope_overrides@,
                            ubase + entity_triples(rk, uk, entities_seq.take(ei - 1)),
                            (rk, uk, entity),
                        );
                        assert(entity_triples(rk, uk, entities_seq.take(ei as int))
                            =~= entity_triples(rk, uk, entities_seq.take(ei - 1)).push(
                            (rk, uk, entity),
                        )) by {
                            assert(entities_seq.take(ei as int).drop_last() =~= entities_seq.take(
                                ei - 1,
                            ));
                            assert(entities_seq.take(ei as int).last() == entity);
                        }
                        assert(ubase + entity_triples(rk, uk, entities_seq.take(ei as int)) =~= (
                        ubase + entity_triples(rk, uk, entities_seq.take(ei - 1))).push(
                            (rk, uk, entity),
                        ));
                    }
                }
                ui = ui + 1;
                proof {
                    assert(entities_seq.take(entities_seq.len() as int) =~= entities_seq);
                    assert(user_triples(rk, users_seq.take(ui as int), entities_seq)
                        =~= user_triples(rk, users_seq.take(ui - 1), entities_seq)
                        + entity_triples(rk, uk, entities_seq)) by {
                        assert(users_seq.take(ui as int).drop_last() =~= users_seq.take(ui - 1));
                        assert(users_seq.take(ui as int).last() == uk);
                    }
                    assert(base + user_triples(rk, users_seq.take(ui as int), entities_seq) =~= (
                    base + user_triples(rk, users_seq.take(ui - 1), entities_seq))
                        + entity_triples(rk, uk, entities_seq));
                }
            }
            ri = ri + 1;
            proof {
                assert(users_seq.take(users_seq.len() as int) =~= users_seq);
                assert(room_triples(room_entries.take(ri as int)) =~= room_triples(
                    room_entries.take(ri - 1),
                ) + user_triples(rk, users_seq, entities_seq)) by {
                    assert(room_entries.take(ri as int).drop_last() =~= room_entries.take(ri - 1));
                    assert(room_entries.take(ri as int).last() == room_entries[ri - 1]);
                }
            }
        }
        proof {
            assert(room_entries.take(nr as int) =~= room_entries);
        }
    }

    /// Make one (room, user, entity) triple's replication state match its
    /// scope verdict.
    fn apply_scope(&mut self, room_key: u16, user_key: u16, entity: u16)
        requires
            old(self).wf(),
        ensures
            final(self).wf(),
            scope_step_rel(
                old(self).connections@,
                final(self).connections@,
                old(self).world_record,
                old(self).manifest@,
                old(self).scope_overrides@,
                (room_key, user_key, entity),
            ),
            final(self).users == old(self).users,
            final(self).rooms == old(self).rooms,
            final(self).world == old(self).world,
            final(self).world_record == old(self).world_record,
            final(self).manifest == old(self).manifest,
            final(self).scope_overrides == old(self).scope_overrides,
            final(self).tick_manager == old(self).tick_manager,
            final(self).outstanding_events == old(self).outstanding_events,
    {
        if !self.world_record.has_entity(entity) {
            proof {
                assert(scope_step_rel(
                    old(self).connections@,
                    self.connections@,
                    old(self).world_record,
                    old(self).manifest@,
                    old(self).scope_overrides@,
                    (room_key, user_key, entity),
                ));
            }
            return ;
        }
        match self.connections.remove(user_key) {
            Some(mut c) => {
                let ghost c0 = c;
                let currently = c.entity_manager.has_entity(entity);
                let is_pawn = c.entity_manager.has_entity_prediction(entity);
                let should = if is_pawn {
                    true
                } else {
                    match self.lookup_scope(room_key, user_key, entity) {
                        Some(v) => v,
                        None => false,
                    }
                };
                if should && !currently {
                    let _ = self.try_spawn_on_connection(&mut c, entity);
                } else if !should && currently {
                    c.entity_manager.despawn_entity(&self.world_record, entity);
                }
                proof {
                    assert(scope_outcome_rel(
                        c0,
                        c,
                        old(self).world_record,
                        old(self).manifest@,
                        old(self).scope_overrides@,
                        room_key,
                        user_key,
                        entity,
                    ));
                }
                self.connections.insert(user_key, c);
                proof {
                    assert(self.connections@.dom() =~= old(self).connections@.dom());
                }
            },
            None => {
                proof {
                    assert(self.connections@ =~= old(self).connections@);
                }
            },
        }
    }

    /// The latest recorded override for the triple.
    fn lookup_scope(&self, room_key: u16, user_key: u16, entity: u16) -> (r: Option<bool>)
        ensures
            r == scope_lookup(self.scope_overrides@, room_key, user_key, entity),
    {
        let mut i: usize = self.scope_overrides.len();
        proof {
            assert(self.scope_overrides@.take(self.scope_overrides@.len() as int)
                =~= self.scope_overrides@);
        }
        while i > 0
            invariant
                i <= self.scope_overrides@.len(),
                scope_lookup(self.scope_overrides@, room_key, user_key, entity) == scope_lookup(
                    self.scope_overrides@.take(i as int),
                    room_key,
                    user_key,
                    entity,
                ),
            decreases i,
        {
            let entry = self.scope_overrides[i - 1];
            proof {
                assert(self.scope_overrides@.take(i as int).last() == entry);
                assert(self.scope_overrides@.take(i as int).drop_last() =~= self.scope_overrides@.take(i - 1));
            }
            if entry.0 == room_key && entry.1 == user_key && entry.2 == entity {
                return Some(entry.3);
            }
            i = i - 1;
        }
        proof {
            assert(self.scope_overrides@.take(0) =~= Seq::<(u16, u16, u16, bool)>::empty());
        }
        None
    }

    /// Begin replicating an entity on one connection, when the keys and
    /// the manifest allow it; an entity that cannot be spawned is left
    /// out of scope and retried on the next pass.
    fn try_spawn_on_connection(&self, c: &mut ClientConnection, entity: u16) -> (spawned: bool)
        requires
            old(c).wf(),
            self.wf(),
            !old(c).entity_manager.entity_records@.dom().contains(entity),
            self.world_record.entities_view().dom().contains(entity),
        ensures
            final(c).wf(),
            spawnable(*old(c), self.world_record, self.manifest@, entity) ==> spawned,
            spawned ==> final(c).entity_manager.entity_records@.dom().contains(entity)
                && final(c).entity_manager.entity_records@[entity].status
                == crate::entity_action::LocalityStatus::Creating,
            !spawned ==> *final(c) == *old(c),
            final(c).message_manager == old(c).message_manager,
            final(c).ack_manager == old(c).ack_manager,
            final(c).heartbeat_timer == old(c).heartbeat_timer,
            final(c).timeout_timer == old(c).timeout_timer,
            final(c).last_received_tick == old(c).last_received_tick,
    {
        if c.entity_manager.has_entity(entity) {
            return false;
        }
        if !self.world_record.has_entity(entity) {
            return false;
        }
        if !c.entity_manager.entity_generator.check_can_generate() {
            return false;
        }
        let component_keys = self.world_record.get_component_keys(entity);
        proof {
            assert(component_keys@.no_duplicates());
            component_keys@.unique_seq_to_set();
            assert(self.world_record.entities_view()[entity].len() == component_keys@.len());
        }
        if !c.entity_manager.component_key_generator.check_can_generate_n(component_keys.len()) {
            return false;
        }
        // every component must be unknown to the connection and declared
        // in the manifest
        let mut i: usize = 0;
        let n = component_keys.len();
        while i < n
            invariant
                i <= n,
                n == component_keys@.len(),
                old(c) == c,
                c.wf(),
                self.wf(),
                c.entity_manager.entity_generator.can_generate(),
                c.entity_manager.component_key_generator.can_generate_n(n as int),
                !c.entity_manager.entity_records@.dom().contains(entity),
                component_keys@ == self.world_record.entities@[entity].items@,
                self.world_record.entities_view().dom().contains(entity),
                forall|a: int|
                    0 <= a < n ==> self.world_record.components_view().dom().contains(
                        #[trigger] component_keys@[a],
                    ),
                forall|a: int|
                    0 <= a < i ==> !c.entity_manager.component_records@.dom().contains(
                        #[trigger] component_keys@[a],
                    ) && self.manifest@.dom().contains(
                        self.world_record.components_view()[component_keys@[a]].1,
                    ),
            decreases n - i,
        {
            let ck = component_keys[i];
            proof {
                assert(component_keys@.to_set().contains(ck));
                assert(self.world_record.entities_view()[entity].contains(ck));
            }
            let known = match c.entity_manager.component_records.get(ck) {
                Some(_) => true,
                None => false,
            };
            if known {
                proof {
                    assert(!spawnable(*old(c), self.world_record, self.manifest@, entity));
                }
                return false;
            }
            let (_, kind) = match self.world_record.get_component_record(ck) {
                Some(p) => p,
                None => vstd::pervasive::unreached(),
            };
            if !self.manifest.size_on_wire(kind).is_some() {
                proof {
                    assert(!spawnable(*old(c), self.world_record, self.manifest@, entity));
                }
                return false;
            }
            i = i + 1;
        }
        proof {
            assert forall|ck: u16| #[trigger]
                self.world_record.entities_view()[entity].contains(ck) implies !c.entity_manager.component_records@.dom().contains(
                ck,
            ) && self.manifest@.dom().contains(
                self.world_record.components_view()[ck].1,
            ) by {
                assert(component_keys@.to_set().contains(ck));
                let a = choose|a: int|
                    0 <= a < component_keys@.len() && component_keys@[a] == ck;
            }
            assert(component_keys@.no_duplicates());
            component_keys@.unique_seq_to_set();
            assert(self.world_record.entities_view()[entity].len() == component_keys@.len());
        }
        c.entity_manager.spawn_entity(&self.world_record, &self.manifest, entity);
        true
    }
}

/// Whether every component this connection tracks still stands in the
/// world record; update collection needs the world side of each key.
fn forall_components_known(em: &EntityManager, world_record: &WorldRecord) -> (r: bool)
    requires
        em.wf(),
        world_record.wf(),
    ensures
        r ==> forall|ck: u16| #[trigger]
            em.component_records@.dom().contains(ck)
                ==> world_record.components_view().dom().contains(ck),
{
    let keys = em.component_records.keys();
    let mut i: usize = 0;
    let n = keys.len();
    while i < n
        invariant
            i <= n,
            n == keys@.len(),
            em.wf(),
            world_record.wf(),
            forall|a: int|
                0 <= a < keys@.len() ==> em.component_records@.dom().contains(#[trigger] keys@[a]),
            forall|k: u16|
                em.component_records@.dom().contains(k) ==> keys@.contains(k),
            forall|a: int|
                0 <= a < i ==> world_record.components_view().dom().contains(#[trigger] keys@[a]),
        decreases n - i,
    {
        match world_record.get_component_record(keys[i]) {
            Some(_) => {},
            None => {
                return false;
            },
        }
        i = i + 1;
    }
    proof {
        assert forall|ck: u16| #[trigger]
            em.component_records@.dom().contains(
                ck,
            ) implies world_record.components_view().dom().contains(ck) by {
            assert(keys@.contains(ck));
            let a = choose|a: int| 0 <= a < keys@.len() && keys@[a] == ck;
        }
    }
    true
}

} // verus!
