//! The client coordinator: handshake, data intake, prediction upkeep.
//!
//! The driver feeds in each datagram payload and elapsed time; the client
//! answers with payloads to send and events for the application. Until
//! connected it emits handshake requests on a timer; once connected it
//! frames data packets, applies incoming actions to the local world, and
//! snapshots every pawn each tick so prediction errors can be detected.

use vstd::prelude::*;

use crate::client_entity_manager::{ClientEntityManager, ClientEntityMessage};
use crate::command_receiver::CommandReceiver;
use crate::connection::{AckManager, ConnectionState, TickManager, Timer};
use crate::message_manager::MessageManager;
use crate::packet::{PacketType, StandardHeader};
use crate::packet_writer::{PacketWriter, MTU_SIZE};
use crate::replica::{Manifest, Replica};
use crate::bytes::PacketReader;
use std::collections::VecDeque;

verus! {

/// What the client surfaces to the application.
pub enum ClientEvent {
    Connection,
    Disconnection,
    Message { message: Replica },
    Entity { entity_message: ClientEntityMessage },
    Tick,
}

pub struct Client {
    pub manifest: Manifest,
    pub connection_state: ConnectionState,
    pub pre_connection_timestamp: Vec<u8>,
    pub pre_connection_digest: Option<Vec<u8>>,
    pub handshake_timer: Timer,
    pub ack_manager: AckManager,
    pub message_manager: MessageManager,
    pub entity_manager: ClientEntityManager,
    pub command_receiver: CommandReceiver,
    pub tick_manager: TickManager,
    pub timeout_timer: Timer,
    pub outstanding_events: VecDeque<ClientEvent>,
}

/// The wire actions a data payload carries: the entity-action block
/// standing after its parsed message block. A payload whose message
/// block does not parse applies no actions.
pub open spec fn wire_actions_of(manifest: Map<u16, u8>, b: Seq<u8>) -> Seq<
    crate::client_entity_manager::WireAction,
> {
    if b.len() >= 12 && crate::message_manager::parse_message_block(
        manifest,
        b.skip(11),
    ).is_some() {
        match crate::client_entity_manager::parse_action_block(
            crate::message_manager::after_messages(manifest, b.skip(12), b[11] as nat),
        ) {
            Some(a) => a,
            None => Seq::<crate::client_entity_manager::WireAction>::empty(),
        }
    } else {
        Seq::<crate::client_entity_manager::WireAction>::empty()
    }
}

impl Client {
    pub open spec fn wf(self) -> bool {
        &&& self.manifest.wf()
        &&& self.ack_manager.wf()
        &&& self.message_manager.wf()
        &&& self.entity_manager.wf()
        &&& self.command_receiver.wf()
        &&& self.tick_manager.wf()
        &&& self.pre_connection_timestamp@.len() == 8
    }

    /// A client about to connect; the timestamp is the app-supplied
    /// nonce the handshake echoes and the server tags.
    pub fn new(
        manifest: Manifest,
        timestamp: Vec<u8>,
        tick_interval_ms: Option<u64>,
        handshake_ms: u64,
        timeout_ms: u64,
    ) -> (r: Client)
        requires
            manifest.wf(),
            timestamp@.len() == 8,
            tick_interval_ms matches Some(iv) ==> iv >= 1,
        ensures
            r.wf(),
            r.connection_state == ConnectionState::AwaitingChallengeResponse,
    {
        Client {
            manifest,
            connection_state: ConnectionState::AwaitingChallengeResponse,
            pre_connection_timestamp: timestamp,
            pre_connection_digest: None,
            handshake_timer: Timer::new(handshake_ms),
            ack_manager: AckManager::new(),
            message_manager: MessageManager::new(),
            entity_manager: ClientEntityManager::new(),
            command_receiver: CommandReceiver::new(),
            tick_manager: TickManager::new(tick_interval_ms),
            timeout_timer: Timer::new(timeout_ms),
            outstanding_events: VecDeque::new(),
        }
    }

    /// The handshake payload owed right now, by connection state: the
    /// challenge echoes the timestamp; the connect request echoes the
    /// timestamp and the tag the server handed back.
    pub fn handshake_payload(&self) -> (r: Option<(PacketType, Vec<u8>)>)
        requires
            self.wf(),
        ensures
            self.connection_state == ConnectionState::AwaitingChallengeResponse ==> (r matches Some(
                p,
            ) && p.0 == PacketType::ClientChallengeRequest && p.1@
                == self.pre_connection_timestamp@),
            (self.connection_state == ConnectionState::AwaitingConnectResponse
                && self.pre_connection_digest is Some) ==> (r matches Some(p) && p.0
                == PacketType::ClientConnectRequest && p.1@ == self.pre_connection_timestamp@
                + self.pre_connection_digest.unwrap()@),
            self.connection_state == ConnectionState::Connected ==> r.is_none(),
            self.connection_state == ConnectionState::Disconnected ==> r.is_none(),
    {
        match self.connection_state {
            ConnectionState::AwaitingChallengeResponse => {
                let mut out: Vec<u8> = Vec::new();
                let mut i: usize = 0;
                while i < self.pre_connection_timestamp.len()
                    invariant
                        i <= self.pre_connection_timestamp@.len(),
                        out@ == self.pre_connection_timestamp@.take(i as int),
                    decreases self.pre_connection_timestamp@.len() - i,
                {
                    out.push(self.pre_connection_timestamp[i]);
                    i = i + 1;
                    assert(out@ =~= self.pre_connection_timestamp@.take(i as int));
                }
                assert(out@ =~= self.pre_connection_timestamp@);
                Some((PacketType::ClientChallengeRequest, out))
            },
            ConnectionState::AwaitingConnectResponse => {
                match &self.pre_connection_digest {
                    Some(digest) => {
                        let mut out: Vec<u8> = Vec::new();
                        let mut i: usize = 0;
                        while i < self.pre_connection_timestamp.len()
                            invariant
                                i <= self.pre_connection_timestamp@.len(),
                                out@ == self.pre_connection_timestamp@.take(i as int),
                            decreases self.pre_connection_timestamp@.len() - i,
                        {
                            out.push(self.pre_connection_timestamp[i]);
                            i = i + 1;
                            assert(out@ =~= self.pre_connection_timestamp@.take(i as int));
                        }
                        assert(out@ =~= self.pre_connection_timestamp@);
                        let mut j: usize = 0;
                        while j < digest.len()
                            invariant
                                j <= digest@.len(),
                                out@ == self.pre_connection_timestamp@ + digest@.take(j as int),
                            decreases digest@.len() - j,
                        {
                            out.push(digest[j]);
                            j = j + 1;
                            assert(out@ =~= self.pre_connection_timestamp@ + digest@.take(
                                j as int,
                            ));
                        }
                        assert(out@ =~= self.pre_connection_timestamp@ + digest@);
                        Some((PacketType::ClientConnectRequest, out))
                    },
                    None => None,
                }
            },
            ConnectionState::Connected => None,
            ConnectionState::Disconnected => None,
        }
    }

    /// A challenge response arrived: when it echoes this client's
    /// timestamp, keep the 32-byte tag as the connect cookie and move to
    /// the connect round; anything else is ignored.
    pub fn process_challenge_response(&mut self, payload: Vec<u8>)
        requires
            old(self).wf(),
        ensures
            final(self).wf(),
            ({
                let b = payload@;
                let matches_ts = b.len() >= 42 && b.subrange(2, 10) == old(self).pre_connection_timestamp@;
                (old(self).connection_state == ConnectionState::AwaitingChallengeResponse
                    && matches_ts) ==> final(self).connection_state
                    == ConnectionState::AwaitingConnectResponse && (final(self).pre_connection_digest matches Some(d) && d@ == b.subrange(10, 42))
            }),
            old(self).connection_state != ConnectionState::AwaitingChallengeResponse ==> *final(self) == *old(self),
            ({
                let b = payload@;
                (old(self).connection_state == ConnectionState::AwaitingChallengeResponse && (b.len()
                    < 42 || b.subrange(2, 10) != old(self).pre_connection_timestamp@)) ==> final(self).connection_state
                    == old(self).connection_state && final(self).pre_connection_digest == old(self).pre_connection_digest
            }),
            final(self).pre_connection_timestamp == old(self).pre_connection_timestamp,
            final(self).ack_manager == old(self).ack_manager,
            final(self).message_manager == old(self).message_manager,
            final(self).entity_manager == old(self).entity_manager,
            final(self).command_receiver == old(self).command_receiver,
            final(self).tick_manager == old(self).tick_manager,
            final(self).outstanding_events == old(self).outstanding_events,
    {
        let is_waiting = match self.connection_state {
            ConnectionState::AwaitingChallengeResponse => true,
            _ => false,
        };
        if !is_waiting {
            return ;
        }
        let ghost b = payload@;
        let mut reader = PacketReader::new(payload);
        let _tick = match reader.read_u16_be() {
            Some(t) => t,
            None => {
                return ;
            },
        };
        let ts = match reader.read_bytes(8) {
            Some(t) => t,
            None => {
                return ;
            },
        };
        let digest = match reader.read_bytes(32) {
            Some(d) => d,
            None => {
                return ;
            },
        };
        proof {
            assert(ts@ =~= b.subrange(2, 10));
            assert(digest@ =~= b.subrange(10, 42));
        }
        let mut same = ts.len() == self.pre_connection_timestamp.len();
        let mut i: usize = 0;
        while i < ts.len()
            invariant
                i <= ts@.len(),
                same ==> ts@.len() == old(self).pre_connection_timestamp@.len(),
                same ==> forall|a: int|
                    0 <= a < i ==> ts@[a] == old(self).pre_connection_timestamp@[a],
                !same ==> ts@ != old(self).pre_connection_timestamp@,
                *self == *old(self),
            decreases ts@.len() - i,
        {
            if same && ts[i] != self.pre_connection_timestamp[i] {
                same = false;
                proof {
                    assert(ts@[i as int] != old(self).pre_connection_timestamp@[i as int]);
                }
            }
            i = i + 1;
        }
        if same {
            proof {
                assert(ts@ =~= old(self).pre_connection_timestamp@);
            }
            self.pre_connection_digest = Some(digest);
            self.connection_state = ConnectionState::AwaitingConnectResponse;
        } else {
            proof {
                assert(ts@ != old(self).pre_connection_timestamp@);
            }
        }
    }

    /// The server accepted: the connection is up.
    pub fn process_connect_response(&mut self)
        requires
            old(self).wf(),
        ensures
            final(self).wf(),
            old(self).connection_state == ConnectionState::AwaitingConnectResponse ==> final(self).connection_state == ConnectionState::Connected && final(self).outstanding_events@
                == old(self).outstanding_events@.push(ClientEvent::Connection),
            old(self).connection_state != ConnectionState::AwaitingConnectResponse ==> final(self).connection_state == old(self).connection_state,
    {
        let is_waiting = match self.connection_state {
            ConnectionState::AwaitingConnectResponse => true,
            _ => false,
        };
        if is_waiting {
            self.connection_state = ConnectionState::Connected;
            self.outstanding_events.push_back(ClientEvent::Connection);
        }
    }

    /// One incoming data packet: the header's acknowledgements fold into
    /// the message ledger (delivered records forgotten, dropped
    /// guaranteed messages re-enqueued), the message block joins the
    /// incoming queue whole or not at all and surfaces as events, and the
    /// entity-action block applies per `apply_all_rel` under the packet's
    /// remote tick, its messages surfacing as events. A short datagram
    /// changes nothing.
    pub fn process_data(&mut self, payload: Vec<u8>)
        requires
            old(self).wf(),
        ensures
            final(self).wf(),
            payload@.len() < 11 ==> *final(self) == *old(self),
            payload@.len() >= 11 ==> exists|
                delivered: Seq<u16>,
                dropped: Seq<u16>,
                em_mid: ClientEntityManager,
            |
                #![trigger delivered.to_set(), dropped.to_set(), ClientEntityManager::apply_all_rel(old(self).entity_manager, old(self).command_receiver, wire_actions_of(old(self).manifest@, payload@), em_mid, final(self).command_receiver, crate::bytes::u16_from_be(payload@[9], payload@[10]), old(self).manifest@)]
                {
                    let b = payload@;
                    let out0 = old(self).ack_manager.outstanding@;
                    &&& delivered.to_set() == crate::connection::ack_named(
                        crate::bytes::u16_from_be(b[3], b[4]),
                        crate::bytes::u32_from_be(b[5], b[6], b[7], b[8]),
                    ).intersect(out0)
                    &&& final(self).ack_manager.outstanding@ == out0.difference(
                        delivered.to_set(),
                    ).difference(dropped.to_set())
                    &&& ({
                        let (ms, mq) = crate::server::mm_drop_fold(
                            crate::server::mm_deliver_fold(
                                old(self).message_manager.sent(),
                                delivered,
                            ),
                            old(self).message_manager.outgoing(),
                            dropped,
                        );
                        final(self).message_manager.sent() == ms
                            && final(self).message_manager.outgoing() == mq
                    })
                    &&& final(self).message_manager.incoming() == Seq::<
                        crate::replica::ReplicaView,
                    >::empty()
                    &&& ClientEntityManager::apply_all_rel(
                        old(self).entity_manager,
                        old(self).command_receiver,
                        wire_actions_of(old(self).manifest@, b),
                        em_mid,
                        final(self).command_receiver,
                        crate::bytes::u16_from_be(b[9], b[10]),
                        old(self).manifest@,
                    )
                    &&& final(self).entity_manager.entities() == em_mid.entities()
                    &&& final(self).entity_manager.pawns() == em_mid.pawns()
                    &&& final(self).entity_manager.pawn_history == em_mid.pawn_history
                    &&& final(self).entity_manager.incoming() == Seq::<
                        crate::client_entity_manager::ClientEntityMessage,
                    >::empty()
                    &&& final(self).outstanding_events@.take(
                        old(self).outstanding_events@.len() as int,
                    ) == old(self).outstanding_events@
                },
    {
        let ghost b = payload@;
        let mut reader = PacketReader::new(payload);
        let header = match StandardHeader::read(&mut reader) {
            Some(h) => h,
            None => {
                return ;
            },
        };
        self.ack_manager.mark_received(header.sequence);
        self.timeout_timer.reset();
        let (delivered, dropped) = self.ack_manager.process_ack(header.ack, header.ack_bitfield);
        let ghost ack_post = self.ack_manager;
        let ghost delivered_seq = delivered@;
        let ghost dropped_seq = dropped@;
        let ghost mm0 = self.message_manager;
        let mut i: usize = 0;
        while i < delivered.len()
            invariant
                i <= delivered@.len(),
                delivered@ == delivered_seq,
                self.wf(),
                self.message_manager.sent() == crate::server::mm_deliver_fold(
                    mm0.sent(),
                    delivered_seq.take(i as int),
                ),
                self.message_manager.outgoing() == mm0.outgoing(),
                self.message_manager.incoming() == mm0.incoming(),
                self.entity_manager == old(self).entity_manager,
                self.command_receiver == old(self).command_receiver,
                self.manifest == old(self).manifest,
                self.outstanding_events == old(self).outstanding_events,
                self.connection_state == old(self).connection_state,
                self.tick_manager == old(self).tick_manager,
                self.ack_manager == ack_post,
            decreases delivered@.len() - i,
        {
            self.message_manager.notify_packet_delivered(delivered[i]);
            i = i + 1;
            proof {
                assert(delivered_seq.take(i as int).drop_last() =~= delivered_seq.take(i - 1));
                assert(delivered_seq.take(i as int).last() == delivered_seq[i - 1]);
            }
        }
        proof {
            assert(delivered_seq.take(delivered_seq.len() as int) =~= delivered_seq);
        }
        let ghost mm_mid = self.message_manager;
        let mut j: usize = 0;
        while j < dropped.len()
            invariant
                j <= dropped@.len(),
                dropped@ == dropped_seq,
                self.wf(),
                ({
                    let (ms, mq) = crate::server::mm_drop_fold(
                        mm_mid.sent(),
                        mm_mid.outgoing(),
                        dropped_seq.take(j as int),
                    );
                    self.message_manager.sent() == ms && self.message_manager.outgoing() == mq
                }),
                self.message_manager.incoming() == mm_mid.incoming(),
                self.entity_manager == old(self).entity_manager,
                self.command_receiver == old(self).command_receiver,
                self.manifest == old(self).manifest,
                self.outstanding_events == old(self).outstanding_events,
                self.connection_state == old(self).connection_state,
                self.tick_manager == old(self).tick_manager,
                self.ack_manager == ack_post,
            decreases dropped@.len() - j,
        {
            self.message_manager.notify_packet_dropped(dropped[j]);
            j = j + 1;
            proof {
                assert(dropped_seq.take(j as int).drop_last() =~= dropped_seq.take(j - 1));
                assert(dropped_seq.take(j as int).last() == dropped_seq[j - 1]);
            }
        }
        proof {
            assert(dropped_seq.take(dropped_seq.len() as int) =~= dropped_seq);
        }
        let ghost mm_after_acks = self.message_manager;
        let mm_ok = self.message_manager.process_data(&mut reader, &self.manifest);
        proof {
            assert(self.message_manager.sent() == mm_after_acks.sent());
            assert(self.message_manager.outgoing() == mm_after_acks.outgoing());
        }
        let mut mm = MessageManager::new();
        core::mem::swap(&mut mm, &mut self.message_manager);
        let ghost mm_after_block = mm;
        let ghost ack_now = self.ack_manager;
        loop
            invariant
                mm.wf(),
                self.wf(),
                self.entity_manager == old(self).entity_manager,
                self.command_receiver == old(self).command_receiver,
                self.manifest == old(self).manifest,
                self.connection_state == old(self).connection_state,
                self.tick_manager == old(self).tick_manager,
                self.ack_manager == ack_now,
                mm.queued_outgoing_messages == mm_after_block.queued_outgoing_messages,
                mm.sent_guaranteed_messages == mm_after_block.sent_guaranteed_messages,
                self.outstanding_events@.len() >= old(self).outstanding_events@.len(),
                self.outstanding_events@.take(old(self).outstanding_events@.len() as int) == old(self).outstanding_events@,
            ensures
                mm.wf(),
                self.wf(),
                mm.incoming() == Seq::<crate::replica::ReplicaView>::empty(),
                mm.queued_outgoing_messages == mm_after_block.queued_outgoing_messages,
                mm.sent_guaranteed_messages == mm_after_block.sent_guaranteed_messages,
                self.entity_manager == old(self).entity_manager,
                self.command_receiver == old(self).command_receiver,
                self.manifest == old(self).manifest,
                self.connection_state == old(self).connection_state,
                self.tick_manager == old(self).tick_manager,
                self.ack_manager == ack_now,
                self.outstanding_events@.take(old(self).outstanding_events@.len() as int) == old(self).outstanding_events@,
            decreases mm.incoming().len(),
        {
            match mm.pop_incoming_message() {
                Some(m) => {
                    let ghost ev_pre = self.outstanding_events@;
                    self.outstanding_events.push_back(ClientEvent::Message { message: m });
                    proof {
                        assert(self.outstanding_events@.take(
                            old(self).outstanding_events@.len() as int,
                        ) =~= ev_pre.take(old(self).outstanding_events@.len() as int));
                    }
                },
                None => {
                    proof {
                        assert(mm.incoming() =~= Seq::<crate::replica::ReplicaView>::empty());
                    }
                    break ;
                },
            }
        }
        self.message_manager = mm;
        let mut em = ClientEntityManager::new();
        core::mem::swap(&mut em, &mut self.entity_manager);
        let mut cr = CommandReceiver::new();
        core::mem::swap(&mut cr, &mut self.command_receiver);
        let ghost em0 = em;
        let ghost cr0 = cr;
        let ghost rest = reader.remaining();
        // a payload whose message block is malformed applies no actions
        let ok = if mm_ok {
            em.process_data(&self.manifest, &mut cr, header.host_tick, &mut reader)
        } else {
            false
        };
        let ghost acts: Seq<crate::client_entity_manager::WireAction> = if mm_ok
            && crate::client_entity_manager::parse_action_block(rest).is_some() {
            crate::client_entity_manager::parse_action_block(rest).unwrap()
        } else {
            Seq::<crate::client_entity_manager::WireAction>::empty()
        };
        proof {
            if !ok {
                assert(ClientEntityManager::apply_all_rel(
                    em0,
                    cr0,
                    Seq::<crate::client_entity_manager::WireAction>::empty(),
                    em,
                    cr,
                    header.host_tick,
                    old(self).manifest@,
                ));
            }
            assert(ClientEntityManager::apply_all_rel(
                em0,
                cr0,
                acts,
                em,
                cr,
                header.host_tick,
                old(self).manifest@,
            ));
        }
        let ghost em_mid_v = em;
        let ghost mm_final = self.message_manager;
        let ghost ack_final = self.ack_manager;
        loop
            invariant
                em.wf(),
                cr.wf(),
                self.wf(),
                em.entities() == em_mid_v.entities(),
                em.pawns() == em_mid_v.pawns(),
                em.pawn_history == em_mid_v.pawn_history,
                self.message_manager == mm_final,
                self.ack_manager == ack_final,
                self.outstanding_events@.len() >= old(self).outstanding_events@.len(),
                self.outstanding_events@.take(old(self).outstanding_events@.len() as int) == old(self).outstanding_events@,
            ensures
                em.wf(),
                self.wf(),
                em.incoming() == Seq::<crate::client_entity_manager::ClientEntityMessage>::empty(),
                em.entities() == em_mid_v.entities(),
                em.pawns() == em_mid_v.pawns(),
                em.pawn_history == em_mid_v.pawn_history,
                self.message_manager == mm_final,
                self.ack_manager == ack_final,
                self.outstanding_events@.take(old(self).outstanding_events@.len() as int) == old(self).outstanding_events@,
            decreases em.incoming().len(),
        {
            match em.pop_incoming_message() {
                Some(m) => {
                    let ghost ev_pre = self.outstanding_events@;
                    self.outstanding_events.push_back(ClientEvent::Entity { entity_message: m });
                    proof {
                        assert(self.outstanding_events@.take(
                            old(self).outstanding_events@.len() as int,
                        ) =~= ev_pre.take(old(self).outstanding_events@.len() as int));
                    }
                },
                None => {
                    proof {
                        assert(em.incoming() =~= Seq::<
                            crate::client_entity_manager::ClientEntityMessage,
                        >::empty());
                    }
                    break ;
                },
            }
        }
        self.entity_manager = em;
        self.command_receiver = cr;
        proof {
            let b = payload@;
            assert(header.ack == crate::bytes::u16_from_be(b[3], b[4]));
            assert(header.ack_bitfield == crate::bytes::u32_from_be(b[5], b[6], b[7], b[8]));
            assert(header.host_tick == crate::bytes::u16_from_be(b[9], b[10]));
            assert(acts == wire_actions_of(old(self).manifest@, b)) by {
                if mm_ok {
                    assert(crate::message_manager::parse_message_block(
                        old(self).manifest@,
                        b.skip(11),
                    ).is_some());
                    assert(b.skip(11).len() >= 1);
                    assert(b.len() >= 12);
                    assert(b.skip(11)[0] == b[11]);
                    assert(b.skip(11).skip(1) =~= b.skip(12));
                    assert(rest == crate::message_manager::after_messages(
                        old(self).manifest@,
                        b.skip(12),
                        b[11] as nat,
                    ));
                } else {
                    assert(crate::message_manager::parse_message_block(
                        old(self).manifest@,
                        b.skip(11),
                    ).is_none());
                }
            }
            assert(ClientEntityManager::apply_all_rel(
                old(self).entity_manager,
                old(self).command_receiver,
                wire_actions_of(old(self).manifest@, b),
                em_mid_v,
                self.command_receiver,
                crate::bytes::u16_from_be(b[9], b[10]),
                old(self).manifest@,
            ));
            assert(self.entity_manager.entities() == em_mid_v.entities());
            assert(self.entity_manager.pawns() == em_mid_v.pawns());
            assert(self.entity_manager.pawn_history == em_mid_v.pawn_history);
            assert(self.message_manager == mm_final);
            assert(mm_final.sent_guaranteed_messages == mm_after_block.sent_guaranteed_messages);
            assert(mm_final.queued_outgoing_messages == mm_after_block.queued_outgoing_messages);
            assert(self.message_manager.sent() =~~= mm_after_block.sent());
            assert(mm_after_block.sent() =~~= mm_after_acks.sent());
            assert(self.message_manager.outgoing() =~~= mm_after_block.outgoing());
            assert(mm_after_block.outgoing() =~~= mm_after_acks.outgoing());
            assert(mm_after_acks.sent() == crate::server::mm_drop_fold(
                crate::server::mm_deliver_fold(mm0.sent(), delivered_seq),
                mm0.outgoing(),
                dropped_seq,
            ).0);
            assert(mm_after_acks.outgoing() == crate::server::mm_drop_fold(
                crate::server::mm_deliver_fold(mm0.sent(), delivered_seq),
                mm0.outgoing(),
                dropped_seq,
            ).1);
            assert(mm0 == old(self).message_manager);
            assert(self.message_manager.sent() == crate::server::mm_drop_fold(
                crate::server::mm_deliver_fold(old(self).message_manager.sent(), delivered_seq),
                old(self).message_manager.outgoing(),
                dropped_seq,
            ).0);
            assert(self.message_manager.outgoing() == crate::server::mm_drop_fold(
                crate::server::mm_deliver_fold(old(self).message_manager.sent(), delivered_seq),
                old(self).message_manager.outgoing(),
                dropped_seq,
            ).1);
            assert(delivered_seq.to_set() == crate::connection::ack_named(
                crate::bytes::u16_from_be(b[3], b[4]),
                crate::bytes::u32_from_be(b[5], b[6], b[7], b[8]),
            ).intersect(old(self).ack_manager.outstanding@));
            assert(self.ack_manager.outstanding@ == old(self).ack_manager.outstanding@.difference(
                delivered_seq.to_set(),
            ).difference(dropped_seq.to_set()));
        }
    }

    /// Queue a message for the server.
    pub fn queue_message(&mut self, message: &Replica, guaranteed_delivery: bool)
        requires
            old(self).wf(),
        ensures
            final(self).wf(),
            final(self).message_manager.outgoing() == old(self).message_manager.outgoing().push(
                (guaranteed_delivery, message@),
            ),
    {
        self.message_manager.queue_outgoing_message(message, guaranteed_delivery);
    }

    /// Record and queue a command for a pawn at the current tick.
    pub fn queue_command(&mut self, pawn_key: u16, command: &Replica)
        requires
            old(self).wf(),
        ensures
            final(self).wf(),
            final(self).command_receiver.queued() == old(self).command_receiver.queued().push(
                (old(self).tick_manager.tick, pawn_key, command@),
            ),
            old(self).command_receiver.command_history@.dom().contains(pawn_key) ==> (final(self).command_receiver.command_history@[pawn_key].spec_get(
                old(self).tick_manager.tick,
            ) matches Some(c) && c@ == command@),
            final(self).entity_manager == old(self).entity_manager,
            final(self).message_manager == old(self).message_manager,
            final(self).outstanding_events == old(self).outstanding_events,
            final(self).connection_state == old(self).connection_state,
            final(self).tick_manager == old(self).tick_manager,
    {
        let tick = self.tick_manager.get_tick();
        self.command_receiver.queue_command(tick, pawn_key, command);
    }

    /// Account for elapsed time: run the handshake timer, the timeout,
    /// and the tick clock. Every tick snapshots every pawn at the new
    /// tick and queues a tick event; a connected client silent past its
    /// timeout disconnects with a disconnection event and `true` back.
    pub fn register_elapsed(&mut self, ms: u64) -> (timed_out: bool)
        requires
            old(self).wf(),
            ms < 0x1000000,
            old(self).tick_manager.accum_ms < 0x1000000,
        ensures
            final(self).wf(),
            ({
                let ticked = old(self).tick_manager.interval_ms matches Some(iv) && old(self).tick_manager.accum_ms + ms >= iv;
                &&& (ticked ==> forall|k: u16|
                    old(self).entity_manager.pawns().dom().contains(k) && old(self).entity_manager.pawn_history@.dom().contains(k) ==> (
                    #[trigger] final(self).entity_manager.pawn_history@[k].spec_get(
                        final(self).tick_manager.tick,
                    ) matches Some(c) && c@ == old(self).entity_manager.pawns()[k]))
                &&& (!ticked ==> final(self).entity_manager == old(self).entity_manager
                    && final(self).tick_manager.tick == old(self).tick_manager.tick)
            }),
            timed_out == (old(self).connection_state == ConnectionState::Connected && (
            if old(self).timeout_timer.elapsed_ms + ms <= u64::MAX {
                old(self).timeout_timer.elapsed_ms + ms
            } else {
                u64::MAX as int
            }) >= old(self).timeout_timer.duration_ms),
            timed_out ==> final(self).connection_state == ConnectionState::Disconnected
                && final(self).outstanding_events@.last() == ClientEvent::Disconnection,
            !timed_out ==> final(self).connection_state == old(self).connection_state,
            final(self).message_manager == old(self).message_manager,
            final(self).command_receiver == old(self).command_receiver,
            final(self).ack_manager == old(self).ack_manager,
    {
        self.handshake_timer.register_elapsed(ms);
        self.timeout_timer.register_elapsed(ms);
        let ticked = self.tick_manager.register_elapsed(ms);
        if ticked {
            let tick = self.tick_manager.get_tick();
            let mut em = ClientEntityManager::new();
            core::mem::swap(&mut em, &mut self.entity_manager);
            em.save_pawn_snapshots(tick);
            self.entity_manager = em;
            self.outstanding_events.push_back(ClientEvent::Tick);
        }
        let connected = match self.connection_state {
            ConnectionState::Connected => true,
            _ => false,
        };
        if connected && self.timeout_timer.ringing() {
            self.connection_state = ConnectionState::Disconnected;
            self.outstanding_events.push_back(ClientEvent::Disconnection);
            true
        } else {
            false
        }
    }

    /// The next outgoing packet index.
    pub fn get_sequence_number(&self) -> (r: u16)
        ensures
            r == self.ack_manager.sequence_number,
    {
        self.ack_manager.sequence_number
    }

    /// The replica a wire-local key names, while one is live.
    pub fn get_entity(&self, key: u16) -> (r: Option<&Replica>)
        requires
            self.wf(),
        ensures
            match r {
                Some(rep) => self.entity_manager.entities().dom().contains(key) && rep@
                    == self.entity_manager.entities()[key],
                None => !self.entity_manager.entities().dom().contains(key),
            },
    {
        self.entity_manager.get_local_entity(key)
    }

    /// Drain the events that accumulated, oldest first: the result is
    /// exactly the queue, and nothing else moves.
    pub fn receive(&mut self) -> (r: Vec<ClientEvent>)
        requires
            old(self).wf(),
        ensures
            final(self).wf(),
            r@ == old(self).outstanding_events@,
            final(self).outstanding_events@ == Seq::<ClientEvent>::empty(),
            final(self).connection_state == old(self).connection_state,
            final(self).ack_manager == old(self).ack_manager,
            final(self).message_manager == old(self).message_manager,
            final(self).entity_manager == old(self).entity_manager,
            final(self).command_receiver == old(self).command_receiver,
            final(self).tick_manager == old(self).tick_manager,
    {
        let mut events: Vec<ClientEvent> = Vec::new();
        loop
            invariant
                self.wf(),
                events@ + self.outstanding_events@ == old(self).outstanding_events@,
                self.connection_state == old(self).connection_state,
                self.ack_manager == old(self).ack_manager,
                self.message_manager == old(self).message_manager,
                self.entity_manager == old(self).entity_manager,
                self.command_receiver == old(self).command_receiver,
                self.tick_manager == old(self).tick_manager,
            ensures
                self.wf(),
                self.outstanding_events@.len() == 0,
                events@ == old(self).outstanding_events@,
                self.connection_state == old(self).connection_state,
                self.ack_manager == old(self).ack_manager,
                self.message_manager == old(self).message_manager,
                self.entity_manager == old(self).entity_manager,
                self.command_receiver == old(self).command_receiver,
                self.tick_manager == old(self).tick_manager,
            decreases self.outstanding_events@.len(),
        {
            match self.outstanding_events.pop_front() {
                Some(e) => {
                    events.push(e);
                    proof {
                        assert(events@ + self.outstanding_events@ =~= old(self).outstanding_events@);
                    }
                },
                None => {
                    proof {
                        assert(events@ =~= old(self).outstanding_events@);
                    }
                    break ;
                },
            }
        }
        proof {
            assert(self.outstanding_events@ =~= Seq::<ClientEvent>::empty());
        }
        events
    }

    /// Assemble one outgoing data packet of queued messages. A packet is
    /// owed whenever a message waits and fits the budget; the messages it
    /// carries leave the queue in order, and a non-fitting one is
    /// unpopped for the next packet.
    pub fn write_outgoing_packet(&mut self) -> (r: Option<Vec<u8>>)
        requires
            old(self).wf(),
        ensures
            final(self).wf(),
            (old(self).message_manager.outgoing().len() > 0 && old(self).message_manager.outgoing()[0].1.properties.len() + 5 < 508) ==> r.is_some(),
            r matches Some(p) ==> p@.len() >= 11 && final(self).ack_manager.sequence_number
                == crate::entity_manager::EntityManager::wrap_inc(
                old(self).ack_manager.sequence_number,
            ) && final(self).ack_manager.outstanding@ == old(self).ack_manager.outstanding@.insert(
                old(self).ack_manager.sequence_number,
            ),
            r matches Some(p) ==> (exists|bf: u32, k: int|
                #![trigger crate::connection::bit32(bf, 0), old(self).message_manager.outgoing().take(k)]
                1 <= k <= 255 && k <= old(self).message_manager.outgoing().len() && final(self).message_manager.outgoing()
                    == old(self).message_manager.outgoing().skip(k) && (forall|j: u32|
                    j < 32 ==> #[trigger] crate::connection::bit32(bf, j) == old(self).ack_manager.received.spec_get(
                        crate::connection::seq_back(old(self).ack_manager.last_remote_seq, j + 1),
                    ).is_some()) && p@ == (StandardHeader {
                    packet_type: PacketType::Data,
                    sequence: old(self).ack_manager.sequence_number,
                    ack: old(self).ack_manager.last_remote_seq,
                    ack_bitfield: bf,
                    host_tick: old(self).tick_manager.tick,
                }).wire_bytes() + seq![k as u8] + crate::message_manager::message_block_bytes(
                    old(self).message_manager.outgoing().take(k),
                ) + seq![0u8]),
            exists|k: int|
                0 <= k <= old(self).message_manager.outgoing().len() && #[trigger] final(self).message_manager.outgoing() == old(self).message_manager.outgoing().skip(k),
            final(self).entity_manager == old(self).entity_manager,
            final(self).command_receiver == old(self).command_receiver,
            final(self).connection_state == old(self).connection_state,
            final(self).outstanding_events == old(self).outstanding_events,
    {
        let mut writer = PacketWriter::new();
        let packet_index = self.ack_manager.sequence_number;
        let ghost out0 = self.message_manager.outgoing();
        proof {
            assert(out0.skip(0) =~= out0);
            assert(out0.take(0) =~= Seq::<(bool, crate::replica::ReplicaView)>::empty());
            assert(crate::message_manager::message_block_bytes(out0.take(0)) =~= Seq::<
                u8,
            >::empty());
        }
        loop
            invariant
                self.wf(),
                writer.used() <= MTU_SIZE as int,
                exists|k: int|
                    #![trigger out0.skip(k)]
                    0 <= k <= out0.len() && self.message_manager.outgoing() == out0.skip(k)
                        && writer.message_working_bytes@
                        == crate::message_manager::message_block_bytes(out0.take(k))
                        && writer.message_count == k,
                writer.entity_working_bytes@ == Seq::<u8>::empty(),
                writer.entity_action_count == 0,
                self.ack_manager == old(self).ack_manager,
                self.entity_manager == old(self).entity_manager,
                self.command_receiver == old(self).command_receiver,
                self.connection_state == old(self).connection_state,
                self.outstanding_events == old(self).outstanding_events,
                self.tick_manager == old(self).tick_manager,
                out0 == old(self).message_manager.outgoing(),
                packet_index == old(self).ack_manager.sequence_number,
                writer.message_count == 0 ==> (self.message_manager.outgoing() == out0
                    && writer.used() == 0),
            ensures
                self.wf(),
                writer.used() <= MTU_SIZE as int,
                exists|k: int|
                    #![trigger out0.skip(k)]
                    0 <= k <= out0.len() && self.message_manager.outgoing() == out0.skip(k)
                        && writer.message_working_bytes@
                        == crate::message_manager::message_block_bytes(out0.take(k))
                        && writer.message_count == k,
                writer.entity_working_bytes@ == Seq::<u8>::empty(),
                writer.entity_action_count == 0,
                self.ack_manager == old(self).ack_manager,
                self.entity_manager == old(self).entity_manager,
                self.command_receiver == old(self).command_receiver,
                self.connection_state == old(self).connection_state,
                self.outstanding_events == old(self).outstanding_events,
                self.tick_manager == old(self).tick_manager,
                (out0.len() > 0 && out0[0].1.properties.len() + 5 < 508) ==> writer.message_count
                    > 0,
            decreases self.message_manager.outgoing().len(),
        {
            if !self.message_manager.has_outgoing_messages() {
                proof {
                    assert(self.message_manager.outgoing().len() == 0);
                }
                break ;
            }
            let ghost out_pre = self.message_manager.outgoing();
            let ghost mwb_pre = writer.message_working_bytes@;
            let ghost count_pre = writer.message_count;
            let message = match self.message_manager.pop_outgoing_message(packet_index) {
                Some(m) => m,
                None => {
                    break ;
                },
            };
            let written = writer.write_message(&message);
            if !written {
                self.message_manager.unpop_outgoing_message(packet_index, message);
                proof {
                    assert(self.message_manager.outgoing() =~= out_pre);
                    if out0.len() > 0 && out0[0].1.properties.len() + 5 < 508
                        && writer.message_count == 0 {
                        // an empty writer always takes a fitting first message
                        assert(out_pre == out0);
                        assert(message@ == out0[0].1);
                        assert(false);
                    }
                }
                break ;
            }
            proof {
                let k0 = choose|k: int|
                    0 <= k <= out0.len() && out_pre == out0.skip(k) && mwb_pre
                        == crate::message_manager::message_block_bytes(out0.take(k)) && count_pre
                        == k;
                assert(self.message_manager.outgoing() =~= out0.skip(k0 + 1)) by {
                    assert(self.message_manager.outgoing() =~= out_pre.drop_first());
                    assert(out0.skip(k0).drop_first() =~= out0.skip(k0 + 1));
                }
                assert(message@ == out0[k0].1) by {
                    assert(out_pre[0] == out0.skip(k0)[0]);
                }
                assert(out0.take(k0 + 1).drop_last() =~= out0.take(k0));
                assert(out0.take(k0 + 1).last() == out0[k0]);
                assert(writer.message_working_bytes@
                    == crate::message_manager::message_block_bytes(out0.take(k0 + 1)));
                assert(writer.message_count == k0 + 1);
            }
        }
        if writer.has_bytes() {
            let ghost kfin = choose|k: int|
                0 <= k <= out0.len() && self.message_manager.outgoing() == out0.skip(k)
                    && writer.message_working_bytes@
                    == crate::message_manager::message_block_bytes(out0.take(k))
                    && writer.message_count == k;
            proof {
                assert(writer.message_count > 0);
                assert(kfin >= 1);
            }
            let ghost mwb_fin = writer.message_working_bytes@;
            let body = writer.get_packet_bytes();
            proof {
                assert(body@ =~= seq![kfin as u8] + mwb_fin + seq![0u8]);
            }
            let (ack, ack_bitfield) = self.ack_manager.ack_fields();
            let sequence = self.ack_manager.next_packet_index();
            let header = StandardHeader::new(
                PacketType::Data,
                sequence,
                ack,
                ack_bitfield,
                self.tick_manager.get_tick(),
            );
            let ghost hdr = header;
            let mut out: Vec<u8> = Vec::new();
            header.write(&mut out);
            proof {
                assert(out@ =~= hdr.wire_bytes() + body@.take(0));
            }
            let ghost ack_done = self.ack_manager;
            let ghost mm_done = self.message_manager;
            let mut i: usize = 0;
            while i < body.len()
                invariant
                    i <= body@.len(),
                    out@ == hdr.wire_bytes() + body@.take(i as int),
                    self.ack_manager == ack_done,
                    self.message_manager == mm_done,
                    self.wf(),
                decreases body@.len() - i,
            {
                out.push(body[i]);
                i = i + 1;
                proof {
                    assert(out@ =~= hdr.wire_bytes() + body@.take(i as int));
                }
            }
            proof {
                assert(body@.take(body@.len() as int) =~= body@);
                assert(kfin <= 255);
                assert(crate::connection::bit32(ack_bitfield, 0)
                    == old(self).ack_manager.received.spec_get(
                    crate::connection::seq_back(old(self).ack_manager.last_remote_seq, 1),
                ).is_some());
                assert(out@ =~= (StandardHeader {
                    packet_type: PacketType::Data,
                    sequence: old(self).ack_manager.sequence_number,
                    ack: old(self).ack_manager.last_remote_seq,
                    ack_bitfield: ack_bitfield,
                    host_tick: old(self).tick_manager.tick,
                }).wire_bytes() + seq![kfin as u8]
                    + crate::message_manager::message_block_bytes(out0.take(kfin)) + seq![0u8]);
            }
            Some(out)
        } else {
            None
        }
    }
}

} // verus!
