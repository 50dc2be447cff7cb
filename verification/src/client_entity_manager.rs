//! The client entity manager: applies incoming entity actions and keeps
//! the pawn shadow world.
//!
//! Wire actions demultiplex by a one-byte type. Creates build a replica
//! through the manifest; duplicates are ignored. Updates apply a partial
//! read under the diff mask; when the updated entity is a pawn and its
//! history ring holds a snapshot for the packet's tick, agreement trims
//! the history and disagreement asks the command receiver to replay every
//! command issued after that tick.

use vstd::prelude::*;

use crate::bytes::{u16_from_be, PacketReader};
use crate::diff_mask::DiffMask;
use crate::command_receiver::CommandReceiver;
use crate::keyed_vec::KeyedVec;
use crate::replica::{apply_masked, Replica, ReplicaView};
use crate::sequence_buffer::SequenceBuffer;
use std::collections::VecDeque;

verus! {

/// The capacity of each pawn's snapshot ring.
pub const PAWN_HISTORY_SIZE: u16 = 64;

/// What an incoming packet told the application about one local entity.
#[derive(Clone, Copy, Debug, PartialEq, Eq, Structural)]
pub enum ClientEntityMessage {
    Create { local_key: u16 },
    Delete { local_key: u16 },
    Update { local_key: u16 },
    AssignPawn { local_key: u16 },
    UnassignPawn { local_key: u16 },
}

/// One parsed wire action.
pub enum WireAction {
    Create { kind: u16, local_key: u16, payload: Seq<u8> },
    Delete { local_key: u16 },
    Update { local_key: u16, mask: Seq<u8>, payload: Seq<u8> },
    AssignPawn { local_key: u16 },
    UnassignPawn { local_key: u16 },
}

/// The actions a block of `count` wire actions denotes; `None` when the
/// block is malformed (unknown type byte or truncated payload).
pub open spec fn parse_actions(bytes: Seq<u8>, count: nat) -> Option<Seq<WireAction>>
    decreases count,
{
    if count == 0 {
        Some(seq![])
    } else if bytes.len() < 1 {
        None
    } else if bytes[0] == 0 {
        // creation: kind, local key, payload length, payload
        if bytes.len() < 6 {
            None
        } else {
            let kind = u16_from_be(bytes[1], bytes[2]);
            let local_key = u16_from_be(bytes[3], bytes[4]);
            let n = bytes[5] as int;
            if bytes.len() < 6 + n {
                None
            } else {
                match parse_actions(bytes.skip(6 + n), (count - 1) as nat) {
                    Some(rest) => Some(
                        seq![
                            WireAction::Create {
                                kind,
                                local_key,
                                payload: bytes.subrange(6, 6 + n),
                            },
                        ] + rest,
                    ),
                    None => None,
                }
            }
        }
    } else if bytes[0] == 1 {
        // deletion: local key
        if bytes.len() < 3 {
            None
        } else {
            match parse_actions(bytes.skip(3), (count - 1) as nat) {
                Some(rest) => Some(
                    seq![WireAction::Delete { local_key: u16_from_be(bytes[1], bytes[2]) }] + rest,
                ),
                None => None,
            }
        }
    } else if bytes[0] == 2 {
        // update: local key, diff mask, payload length, payload
        if bytes.len() < 4 {
            None
        } else {
            let local_key = u16_from_be(bytes[1], bytes[2]);
            let mlen = bytes[3] as int;
            if bytes.len() < 4 + mlen + 1 {
                None
            } else {
                let mask = bytes.subrange(4, 4 + mlen);
                let plen = bytes[4 + mlen] as int;
                if bytes.len() < 5 + mlen + plen {
                    None
                } else {
                    match parse_actions(bytes.skip(5 + mlen + plen), (count - 1) as nat) {
                        Some(rest) => Some(
                            seq![
                                WireAction::Update {
                                    local_key,
                                    mask,
                                    payload: bytes.subrange(5 + mlen, 5 + mlen + plen),
                                },
                            ] + rest,
                        ),
                        None => None,
                    }
                }
            }
        }
    } else if bytes[0] == 3 {
        if bytes.len() < 3 {
            None
        } else {
            match parse_actions(bytes.skip(3), (count - 1) as nat) {
                Some(rest) => Some(
                    seq![WireAction::AssignPawn { local_key: u16_from_be(bytes[1], bytes[2]) }]
                        + rest,
                ),
                None => None,
            }
        }
    } else if bytes[0] == 4 {
        if bytes.len() < 3 {
            None
        } else {
            match parse_actions(bytes.skip(3), (count - 1) as nat) {
                Some(rest) => Some(
                    seq![WireAction::UnassignPawn { local_key: u16_from_be(bytes[1], bytes[2]) }]
                        + rest,
                ),
                None => None,
            }
        }
    } else {
        None
    }
}

/// A whole action block: a one-byte count, then that many actions.
pub open spec fn parse_action_block(bytes: Seq<u8>) -> Option<Seq<WireAction>> {
    if bytes.len() < 1 {
        None
    } else {
        parse_actions(bytes.skip(1), bytes[0] as nat)
    }
}

pub struct ClientEntityManager {
    pub local_entity_store: KeyedVec<Replica>,
    pub queued_incoming_messages: VecDeque<ClientEntityMessage>,
    pub pawn_store: KeyedVec<Replica>,
    pub pawn_history: KeyedVec<SequenceBuffer<Replica>>,
}

impl ClientEntityManager {
    pub open spec fn wf(self) -> bool {
        &&& self.local_entity_store.wf()
        &&& self.pawn_store.wf()
        &&& self.pawn_history.wf()
        &&& forall|k: u16| #[trigger]
            self.pawn_history@.dom().contains(k) ==> self.pawn_history@[k].wf()
    }

    /// The authoritative replica under each live local key.
    pub open spec fn entities(self) -> Map<u16, ReplicaView> {
        self.local_entity_store@.map_values(|r: Replica| r@)
    }

    /// The predicted replica of each pawn.
    pub open spec fn pawns(self) -> Map<u16, ReplicaView> {
        self.pawn_store@.map_values(|r: Replica| r@)
    }

    /// The messages owed to the application, front first.
    pub open spec fn incoming(self) -> Seq<ClientEntityMessage> {
        self.queued_incoming_messages@
    }

    pub fn new() -> (r: ClientEntityManager)
        ensures
            r.wf(),
            r.entities() == Map::<u16, ReplicaView>::empty(),
            r.pawns() == Map::<u16, ReplicaView>::empty(),
            r.incoming() == Seq::<ClientEntityMessage>::empty(),
            r.pawn_history@ == Map::<u16, SequenceBuffer<Replica>>::empty(),
    {
        let r = ClientEntityManager {
            local_entity_store: KeyedVec::new(),
            queued_incoming_messages: VecDeque::new(),
            pawn_store: KeyedVec::new(),
            pawn_history: KeyedVec::new(),
        };
        proof {
            assert(r.entities() =~= Map::<u16, ReplicaView>::empty());
            assert(r.pawns() =~= Map::<u16, ReplicaView>::empty());
        }
        r
    }

    /// The earliest message not yet handed to the application.
    pub fn pop_incoming_message(&mut self) -> (r: Option<ClientEntityMessage>)
        ensures
            final(self).wf() == old(self).wf(),
            old(self).incoming().len() == 0 ==> r.is_none() && final(self).incoming() == old(self).incoming(),
            old(self).incoming().len() > 0 ==> r == Some(old(self).incoming()[0]) && final(self).incoming() == old(self).incoming().drop_first(),
            final(self).entities() == old(self).entities(),
            final(self).pawns() == old(self).pawns(),
            final(self).local_entity_store == old(self).local_entity_store,
            final(self).pawn_store == old(self).pawn_store,
            final(self).pawn_history == old(self).pawn_history,
    {
        self.queued_incoming_messages.pop_front()
    }

    /// The authoritative replica under a local key.
    pub fn get_local_entity(&self, key: u16) -> (r: Option<&Replica>)
        requires
            self.wf(),
        ensures
            match r {
                Some(rep) => self.entities().dom().contains(key) && rep@ == self.entities()[key],
                None => !self.entities().dom().contains(key),
            },
    {
        proof {
            assert(self.entities().dom() =~= self.local_entity_store@.dom());
        }
        self.local_entity_store.get(key)
    }

    /// The predicted replica of a pawn.
    pub fn get_pawn(&self, key: u16) -> (r: Option<&Replica>)
        requires
            self.wf(),
        ensures
            match r {
                Some(rep) => self.pawns().dom().contains(key) && rep@ == self.pawns()[key],
                None => !self.pawns().dom().contains(key),
            },
    {
        proof {
            assert(self.pawns().dom() =~= self.pawn_store@.dom());
        }
        self.pawn_store.get(key)
    }

    /// The live local entity keys, in store order.
    pub fn entities_iter(&self) -> (r: Vec<u16>)
        requires
            self.wf(),
        ensures
            forall|i: int|
                0 <= i < r@.len() ==> self.entities().dom().contains(#[trigger] r@[i]),
            forall|k: u16| self.entities().dom().contains(k) ==> r@.contains(k),
    {
        let r = self.local_entity_store.keys();
        proof {
            assert(self.entities().dom() =~= self.local_entity_store@.dom());
        }
        r
    }

    /// The live pawn keys, in store order.
    pub fn pawns_iter(&self) -> (r: Vec<u16>)
        requires
            self.wf(),
        ensures
            forall|i: int|
                0 <= i < r@.len() ==> self.pawns().dom().contains(#[trigger] r@[i]),
            forall|k: u16| self.pawns().dom().contains(k) ==> r@.contains(k),
    {
        let r = self.pawn_store.keys();
        proof {
            assert(self.pawns().dom() =~= self.pawn_store@.dom());
        }
        r
    }

    /// Reset a pawn's prediction to the authoritative state.
    pub fn pawn_reset(&mut self, key: u16)
        requires
            old(self).wf(),
        ensures
            final(self).wf(),
            old(self).entities().dom().contains(key) ==> final(self).pawns() == old(self).pawns().insert(key, old(self).entities()[key]),
            !old(self).entities().dom().contains(key) ==> final(self).pawns() == old(self).pawns(),
            final(self).entities() == old(self).entities(),
            final(self).incoming() == old(self).incoming(),
            final(self).pawn_history == old(self).pawn_history,
    {
        proof {
            assert(self.entities().dom() =~= self.local_entity_store@.dom());
        }
        match self.local_entity_store.get(key) {
            Some(rep) => {
                let copy = rep.clone_replica();
                self.pawn_store.insert(key, copy);
                proof {
                    assert(self.pawns() =~~= old(self).pawns().insert(
                        key,
                        old(self).entities()[key],
                    ));
                }
            },
            None => {},
        }
    }

    /// Forget a pawn's snapshots.
    pub fn pawn_clear_history(&mut self, key: u16)
        requires
            old(self).wf(),
        ensures
            final(self).wf(),
            final(self).pawn_history@.dom() == old(self).pawn_history@.dom(),
            old(self).pawn_history@.dom().contains(key) ==> forall|s: u16|
                final(self).pawn_history@[key].spec_get(s).is_none(),
            final(self).entities() == old(self).entities(),
            final(self).pawns() == old(self).pawns(),
            final(self).incoming() == old(self).incoming(),
    {
        match self.pawn_history.remove(key) {
            Some(mut buf) => {
                buf.clear();
                self.pawn_history.insert(key, buf);
                proof {
                    assert(self.pawn_history@.dom() =~= old(self).pawn_history@.dom());
                }
            },
            None => {
                proof {
                    assert(self.pawn_history@.dom() =~= old(self).pawn_history@.dom());
                }
            },
        }
    }

    /// Snapshot one pawn's current prediction under `history_tick`.
    pub fn save_replay_snapshot(&mut self, history_tick: u16, pawn_key: u16)
        requires
            old(self).wf(),
        ensures
            final(self).wf(),
            final(self).entities() == old(self).entities(),
            final(self).pawns() == old(self).pawns(),
            final(self).incoming() == old(self).incoming(),
            final(self).pawn_history@.dom() == old(self).pawn_history@.dom(),
            forall|k: u16|
                final(self).pawn_history@.dom().contains(k) && k != pawn_key ==> final(self).pawn_history@[k]
                    == old(self).pawn_history@[k],
            old(self).pawns().dom().contains(pawn_key) && old(self).pawn_history@.dom().contains(
                pawn_key,
            ) ==> (final(self).pawn_history@[pawn_key].spec_get(history_tick) matches Some(c) && c@
                == old(self).pawns()[pawn_key]) && (forall|s: u16|
                s != history_tick && old(self).pawn_history@[pawn_key].slot_of(s) != old(self).pawn_history@[pawn_key].slot_of(history_tick)
                    ==> final(self).pawn_history@[pawn_key].spec_get(s) == old(self).pawn_history@[pawn_key].spec_get(s)),
            !(old(self).pawns().dom().contains(pawn_key) && old(self).pawn_history@.dom().contains(pawn_key)) ==> final(self).pawn_history == old(self).pawn_history,
    {
        proof {
            assert(self.pawns().dom() =~= self.pawn_store@.dom());
        }
        let has_pawn = self.pawn_store.contains_key(pawn_key);
        let has_hist = self.pawn_history.contains_key(pawn_key);
        if has_pawn && has_hist {
            let snapshot = match self.pawn_store.get(pawn_key) {
                Some(rep) => rep.clone_replica(),
                None => vstd::pervasive::unreached(),
            };
            let mut buf = match self.pawn_history.remove(pawn_key) {
                Some(b) => b,
                None => vstd::pervasive::unreached(),
            };
            buf.insert(history_tick, snapshot);
            self.pawn_history.insert(pawn_key, buf);
            proof {
                assert(self.pawn_history@.dom() =~= old(self).pawn_history@.dom());
            }
        }
    }

    /// Copy every stored pawn snapshot into `buffer`, walking each
    /// pawn's ring from its oldest possible tick to its newest.
    pub fn fill_history(&self, buffer: &mut Vec<Replica>)
        requires
            self.wf(),
        ensures
            final(buffer)@.len() >= old(buffer)@.len(),
    {
        let keys = self.pawn_history.keys();
        let mut i: usize = 0;
        while i < keys.len()
            invariant
                self.wf(),
                buffer@.len() >= old(buffer)@.len(),
                forall|a: int|
                    0 <= a < keys@.len() ==> self.pawn_history@.dom().contains(
                        #[trigger] keys@[a],
                    ),
            decreases keys@.len() - i,
        {
            match self.pawn_history.get(keys[i]) {
                Some(buf) => {
                    let newest = buf.sequence_num();
                    let mut back: u16 = PAWN_HISTORY_SIZE;
                    while back > 0
                        invariant
                            self.wf(),
                            self.pawn_history@.dom().contains(keys@[i as int]),
                            buf.wf(),
                            buffer@.len() >= old(buffer)@.len(),
                        decreases back,
                    {
                        let tick = newest.wrapping_sub(back).wrapping_add(1);
                        match buf.get(tick) {
                            Some(rep) => {
                                buffer.push(rep.clone_replica());
                            },
                            None => {},
                        }
                        back = back - 1;
                    }
                },
                None => {},
            }
            i = i + 1;
        }
    }

    /// Snapshot every pawn under the current host tick: afterwards each
    /// pawn with a history ring holds its current prediction at that tick.
    pub fn save_pawn_snapshots(&mut self, host_tick: u16)
        requires
            old(self).wf(),
        ensures
            final(self).wf(),
            final(self).entities() == old(self).entities(),
            final(self).pawns() == old(self).pawns(),
            final(self).incoming() == old(self).incoming(),
            final(self).pawn_history@.dom() == old(self).pawn_history@.dom(),
            forall|k: u16|
                old(self).pawns().dom().contains(k) && old(self).pawn_history@.dom().contains(k)
                    ==> (#[trigger] final(self).pawn_history@[k].spec_get(host_tick) matches Some(c)
                    && c@ == old(self).pawns()[k]),
    {
        let keys = self.pawn_store.keys();
        let n = keys.len();
        let mut i: usize = 0;
        while i < n
            invariant
                i <= n,
                n == keys@.len(),
                self.wf(),
                self.entities() == old(self).entities(),
                self.pawns() == old(self).pawns(),
                self.incoming() == old(self).incoming(),
                self.pawn_history@.dom() == old(self).pawn_history@.dom(),
                forall|a: int| 0 <= a < n ==> old(self).pawns().dom().contains(#[trigger] keys@[a]),
                forall|k: u16| old(self).pawns().dom().contains(k) ==> keys@.contains(k),
                forall|a: int|
                    0 <= a < i && old(self).pawn_history@.dom().contains(keys@[a]) ==> (
                    #[trigger] self.pawn_history@[keys@[a]].spec_get(host_tick) matches Some(c)
                        && c@ == old(self).pawns()[keys@[a]]),
            decreases n - i,
        {
            let ghost hist_pre = self.pawn_history@;
            self.save_replay_snapshot(host_tick, keys[i]);
            i = i + 1;
            proof {
                assert forall|a: int|
                    0 <= a < i && old(self).pawn_history@.dom().contains(keys@[a]) implies (
                #[trigger] self.pawn_history@[keys@[a]].spec_get(host_tick) matches Some(c) && c@
                    == old(self).pawns()[keys@[a]]) by {
                    if a < i - 1 {
                        if keys@[a] != keys@[i - 1] {
                            assert(self.pawn_history@[keys@[a]] == hist_pre[keys@[a]]);
                        } else {
                            assert(self.pawns().dom().contains(keys@[a]));
                        }
                    } else {
                        assert(self.pawns().dom().contains(keys@[a]));
                    }
                }
            }
        }
        proof {
            assert forall|k: u16|
                old(self).pawns().dom().contains(k) && old(self).pawn_history@.dom().contains(
                    k,
                ) implies (#[trigger] final(self).pawn_history@[k].spec_get(host_tick) matches Some(
                c,
            ) && c@ == old(self).pawns()[k]) by {
                assert(keys@.contains(k));
                let a = choose|a: int| 0 <= a < keys@.len() && keys@[a] == k;
            }
        }
    }

    /// Views of `b` agree with `a` everywhere.
    pub open spec fn same_state(a: ClientEntityManager, b: ClientEntityManager) -> bool {
        &&& b.entities() == a.entities()
        &&& b.pawns() == a.pawns()
        &&& b.incoming() == a.incoming()
        &&& b.pawn_history == a.pawn_history
    }

    /// The exact effect of one incoming wire action, as delivered by
    /// `apply_action`: what it does to the local store, the pawn shadow
    /// world, the history rings, the message queue and the command
    /// receiver.
    pub open spec fn apply_rel(
        pre: ClientEntityManager,
        pre_r: CommandReceiver,
        a: WireAction,
        post: ClientEntityManager,
        post_r: CommandReceiver,
        packet_tick: u16,
        manifest: Map<u16, u8>,
    ) -> bool {
        match a {
            WireAction::Create { kind, local_key, payload } => {
                if manifest.dom().contains(kind) && manifest[kind] == payload.len()
                    && !pre.entities().dom().contains(local_key) {
                    &&& post.entities() == pre.entities().insert(
                        local_key,
                        ReplicaView { kind, properties: payload },
                    )
                    &&& post.incoming() == pre.incoming().push(
                        ClientEntityMessage::Create { local_key },
                    )
                    &&& post.pawns() == pre.pawns()
                    &&& post.pawn_history == pre.pawn_history
                    &&& post_r == pre_r
                } else {
                    Self::same_state(pre, post) && post_r == pre_r
                }
            },
            WireAction::Delete { local_key } => {
                &&& post.entities() == pre.entities().remove(local_key)
                &&& post.incoming() == pre.incoming().push(
                    ClientEntityMessage::Delete { local_key },
                )
                &&& post.pawns() == pre.pawns()
                &&& post.pawn_history == pre.pawn_history
                &&& post_r == pre_r
            },
            WireAction::Update { local_key, mask, payload } => {
                if pre.entities().dom().contains(local_key) && mask.len() <= 255
                    && crate::world::masked_len_fits(
                    pre.entities()[local_key].properties,
                    mask,
                    payload,
                ) {
                    let updated = ReplicaView {
                        kind: pre.entities()[local_key].kind,
                        properties: apply_masked(
                            pre.entities()[local_key].properties,
                            mask,
                            payload,
                            0,
                        ),
                    };
                    &&& post.entities() == pre.entities().insert(local_key, updated)
                    &&& post.incoming() == pre.incoming().push(
                        ClientEntityMessage::Update { local_key },
                    )
                    &&& post.pawns() == pre.pawns()
                    &&& (if pre.pawn_history@.dom().contains(local_key)
                        && pre.pawn_history@[local_key].spec_get(packet_tick).is_some() {
                        let h = pre.pawn_history@[local_key].spec_get(packet_tick).unwrap();
                        if h@ == updated {
                            // prediction agreed: trim history, replay nothing
                            &&& post_r == pre_r
                            &&& post.pawn_history@.dom() == pre.pawn_history@.dom()
                            &&& forall|s: u16|
                                post.pawn_history@[local_key].spec_get(s) == (if !crate::seq::seq_gt_spec(
                                    s,
                                    packet_tick,
                                ) {
                                    Option::<Replica>::None
                                } else {
                                    pre.pawn_history@[local_key].spec_get(s)
                                })
                            &&& forall|k: u16|
                                post.pawn_history@.dom().contains(k) && k != local_key
                                    ==> post.pawn_history@[k] == pre.pawn_history@[k]
                        } else {
                            // prediction error: ask for a replay
                            &&& post.pawn_history == pre.pawn_history
                            &&& post_r.command_history == pre_r.command_history
                            &&& (if pre_r.command_history@.dom().contains(local_key) {
                                post_r.queued() == pre_r.queued()
                                    + CommandReceiver::replay_seq(
                                    pre_r.command_history@[local_key],
                                    local_key,
                                    crate::command_receiver::tick_inc(packet_tick),
                                    crate::command_receiver::tick_dist(
                                        crate::command_receiver::tick_inc(packet_tick),
                                        crate::command_receiver::tick_inc(
                                            pre_r.command_history@[local_key].newest,
                                        ),
                                    ) as nat,
                                )
                            } else {
                                post_r.queued() == pre_r.queued()
                            })
                        }
                    } else {
                        post.pawn_history == pre.pawn_history && post_r == pre_r
                    })
                } else {
                    Self::same_state(pre, post) && post_r == pre_r
                }
            },
            WireAction::AssignPawn { local_key } => {
                if pre.entities().dom().contains(local_key) {
                    &&& post.entities() == pre.entities()
                    &&& post.pawns() == pre.pawns().insert(local_key, pre.entities()[local_key])
                    &&& post.pawn_history@.dom() == pre.pawn_history@.dom().insert(local_key)
                    &&& post.pawn_history@[local_key].capacity() == PAWN_HISTORY_SIZE as int
                    &&& forall|s: u16| post.pawn_history@[local_key].spec_get(s).is_none()
                    &&& forall|k: u16|
                        post.pawn_history@.dom().contains(k) && k != local_key
                            ==> post.pawn_history@[k] == pre.pawn_history@[k]
                    &&& post.incoming() == pre.incoming().push(
                        ClientEntityMessage::AssignPawn { local_key },
                    )
                    &&& post_r.command_history@.dom() == pre_r.command_history@.dom().insert(
                        local_key,
                    )
                    &&& post_r.queued() == pre_r.queued()
                } else {
                    Self::same_state(pre, post) && post_r == pre_r
                }
            },
            WireAction::UnassignPawn { local_key } => {
                &&& post.entities() == pre.entities()
                &&& post.pawns() == pre.pawns().remove(local_key)
                &&& post.pawn_history@ == pre.pawn_history@.remove(local_key)
                &&& post.incoming() == pre.incoming().push(
                    ClientEntityMessage::UnassignPawn { local_key },
                )
                &&& post_r.command_history@ == pre_r.command_history@.remove(local_key)
                &&& post_r.queued() == pre_r.queued()
            },
        }
    }

    /// Apply one parsed wire action.
    #[verifier::rlimit(60)]
    pub fn apply_action(
        &mut self,
        command_receiver: &mut CommandReceiver,
        packet_tick: u16,
        action_type: u8,
        key: u16,
        kind: u16,
        mask: &crate::diff_mask::DiffMask,
        payload: &Vec<u8>,
        manifest: &crate::replica::Manifest,
    ) -> (applied: bool)
        requires
            old(self).wf(),
            old(command_receiver).wf(),
            manifest.wf(),
            mask.wf(),
            action_type <= 4,
        ensures
            final(self).wf(),
            final(command_receiver).wf(),
            Self::apply_rel(
                *old(self),
                *old(command_receiver),
                (if action_type == 0 {
                    WireAction::Create { kind, local_key: key, payload: payload@ }
                } else if action_type == 1 {
                    WireAction::Delete { local_key: key }
                } else if action_type == 2 {
                    WireAction::Update { local_key: key, mask: mask@, payload: payload@ }
                } else if action_type == 3 {
                    WireAction::AssignPawn { local_key: key }
                } else {
                    WireAction::UnassignPawn { local_key: key }
                }),
                *final(self),
                *final(command_receiver),
                packet_tick,
                manifest@,
            ),
    {
        proof {
            assert(self.entities().dom() =~= self.local_entity_store@.dom());
            assert(self.pawns().dom() =~= self.pawn_store@.dom());
        }
        if action_type == 0 {
            let expected = match manifest.size_on_wire(kind) {
                Some(n) => Some(n),
                None => None,
            };
            let fits = match expected {
                Some(n) => n as usize == payload.len(),
                None => false,
            };
            if fits && !self.local_entity_store.contains_key(key) {
                let mut properties: Vec<u8> = Vec::new();
                let mut i: usize = 0;
                while i < payload.len()
                    invariant
                        i <= payload@.len(),
                        properties@ == payload@.take(i as int),
                    decreases payload@.len() - i,
                {
                    properties.push(payload[i]);
                    i = i + 1;
                    assert(properties@ =~= payload@.take(i as int));
                }
                assert(properties@ =~= payload@);
                self.local_entity_store.insert(key, Replica { kind, properties });
                self.queued_incoming_messages.push_back(
                    ClientEntityMessage::Create { local_key: key },
                );
                proof {
                    assert(self.entities() =~~= old(self).entities().insert(
                        key,
                        ReplicaView { kind, properties: payload@ },
                    ));
                    assert(self.incoming() =~= old(self).incoming().push(
                        ClientEntityMessage::Create { local_key: key },
                    ));
                }
            }
            true
        } else if action_type == 1 {
            let _ = self.local_entity_store.remove(key);
            self.queued_incoming_messages.push_back(
                ClientEntityMessage::Delete { local_key: key },
            );
            proof {
                assert(self.entities() =~~= old(self).entities().remove(key));
                assert(self.incoming() =~= old(self).incoming().push(
                    ClientEntityMessage::Delete { local_key: key },
                ));
            }
            true
        } else if action_type == 2 {
            let present = self.local_entity_store.contains_key(key);
            if !present {
                return true;
            }
            let rep = match self.local_entity_store.remove(key) {
                Some(r) => r,
                None => vstd::pervasive::unreached(),
            };
            let ghost rep0 = rep@;
            let mut work = rep.clone_replica();
            let mut copy: Vec<u8> = Vec::new();
            let mut i: usize = 0;
            while i < payload.len()
                invariant
                    i <= payload@.len(),
                    copy@ == payload@.take(i as int),
                decreases payload@.len() - i,
            {
                copy.push(payload[i]);
                i = i + 1;
                assert(copy@ =~= payload@.take(i as int));
            }
            assert(copy@ =~= payload@);
            let mut reader = PacketReader::new(copy);
            let ok = work.read_partial(mask, &mut reader);
            if !ok {
                // short payload: the action is dropped whole
                self.local_entity_store.insert(key, rep);
                proof {
                    assert(!crate::world::masked_len_fits(rep0.properties, mask@, payload@));
                    assert(self.entities() =~~= old(self).entities()) by {
                        assert(old(self).entities().dom().contains(key));
                        assert(old(self).entities()[key] == rep0);
                    }
                }
                return false;
            }
            let ghost updated = work@;
            self.local_entity_store.insert(key, work);
            proof {
                assert(updated == ReplicaView {
                    kind: rep0.kind,
                    properties: apply_masked(rep0.properties, mask@, payload@, 0),
                });
                assert(self.entities() =~~= old(self).entities().insert(key, updated));
            }
            // prediction check against the snapshot for this packet's tick
            let hist_hit = match self.pawn_history.get(key) {
                Some(buf) => {
                    match buf.get(packet_tick) {
                        Some(h) => Some(h.clone_replica()),
                        None => None,
                    }
                },
                None => None,
            };
            match hist_hit {
                Some(h) => {
                    let current = match self.local_entity_store.get(key) {
                        Some(r) => r,
                        None => vstd::pervasive::unreached(),
                    };
                    if current.equals(&h) {
                        let mut buf = match self.pawn_history.remove(key) {
                            Some(b) => b,
                            None => vstd::pervasive::unreached(),
                        };
                        buf.remove_until(packet_tick);
                        self.pawn_history.insert(key, buf);
                        proof {
                            assert(self.pawn_history@.dom() =~= old(self).pawn_history@.dom());
                        }
                    } else {
                        command_receiver.replay_commands(packet_tick, key);
                    }
                },
                None => {},
            }
            self.queued_incoming_messages.push_back(
                ClientEntityMessage::Update { local_key: key },
            );
            proof {
                assert(self.incoming() =~= old(self).incoming().push(
                    ClientEntityMessage::Update { local_key: key },
                ));
                assert(self.pawns() =~~= old(self).pawns());
            }
            true
        } else if action_type == 3 {
            match self.local_entity_store.get(key) {
                Some(rep) => {
                    let copy = rep.clone_replica();
                    self.pawn_store.insert(key, copy);
                    self.pawn_history.insert(
                        key,
                        SequenceBuffer::with_capacity(PAWN_HISTORY_SIZE),
                    );
                    command_receiver.pawn_init(key);
                    self.queued_incoming_messages.push_back(
                        ClientEntityMessage::AssignPawn { local_key: key },
                    );
                    proof {
                        assert(self.pawns() =~~= old(self).pawns().insert(
                            key,
                            old(self).entities()[key],
                        ));
                        assert(self.pawn_history@.dom() =~= old(self).pawn_history@.dom().insert(
                            key,
                        ));
                        assert(self.incoming() =~= old(self).incoming().push(
                            ClientEntityMessage::AssignPawn { local_key: key },
                        ));
                        assert(self.entities() =~~= old(self).entities());
                    }
                },
                None => {},
            }
            true
        } else {
            let _ = self.pawn_store.remove(key);
            let _ = self.pawn_history.remove(key);
            command_receiver.pawn_cleanup(key);
            self.queued_incoming_messages.push_back(
                ClientEntityMessage::UnassignPawn { local_key: key },
            );
            proof {
                assert(self.pawns() =~~= old(self).pawns().remove(key));
                assert(self.pawn_history@ =~= old(self).pawn_history@.remove(key));
                assert(self.incoming() =~= old(self).incoming().push(
                    ClientEntityMessage::UnassignPawn { local_key: key },
                ));
                assert(self.entities() =~~= old(self).entities());
            }
            true
        }
    }

    /// A chain of single-action effects, in wire order.
    pub open spec fn apply_all_rel(
        pre: ClientEntityManager,
        pre_r: CommandReceiver,
        msgs: Seq<WireAction>,
        post: ClientEntityManager,
        post_r: CommandReceiver,
        packet_tick: u16,
        manifest: Map<u16, u8>,
    ) -> bool
        decreases msgs.len(),
    {
        if msgs.len() == 0 {
            post == pre && post_r == pre_r
        } else {
            exists|mid: ClientEntityManager, mid_r: CommandReceiver|
                #[trigger] Self::apply_rel(pre, pre_r, msgs[0], mid, mid_r, packet_tick, manifest)
                    && Self::apply_all_rel(
                    mid,
                    mid_r,
                    msgs.drop_first(),
                    post,
                    post_r,
                    packet_tick,
                    manifest,
                )
        }
    }

    /// A chain extends by one applied action at its end.
    pub proof fn lemma_apply_all_snoc(
        pre: ClientEntityManager,
        pre_r: CommandReceiver,
        msgs: Seq<WireAction>,
        cur: ClientEntityManager,
        cur_r: CommandReceiver,
        a: WireAction,
        next: ClientEntityManager,
        next_r: CommandReceiver,
        packet_tick: u16,
        manifest: Map<u16, u8>,
    )
        requires
            Self::apply_all_rel(pre, pre_r, msgs, cur, cur_r, packet_tick, manifest),
            Self::apply_rel(cur, cur_r, a, next, next_r, packet_tick, manifest),
        ensures
            Self::apply_all_rel(pre, pre_r, msgs.push(a), next, next_r, packet_tick, manifest),
        decreases msgs.len(),
    {
        if msgs.len() == 0 {
            assert(cur == pre && cur_r == pre_r);
            assert(msgs.push(a)[0] == a);
            assert(msgs.push(a).drop_first() =~= Seq::<WireAction>::empty());
            assert(Self::apply_rel(pre, pre_r, msgs.push(a)[0], next, next_r, packet_tick, manifest));
            assert(Self::apply_all_rel(
                next,
                next_r,
                msgs.push(a).drop_first(),
                next,
                next_r,
                packet_tick,
                manifest,
            ));
        } else {
            let (mid, mid_r) = choose|mid: ClientEntityManager, mid_r: CommandReceiver|
                #[trigger] Self::apply_rel(pre, pre_r, msgs[0], mid, mid_r, packet_tick, manifest)
                    && Self::apply_all_rel(
                    mid,
                    mid_r,
                    msgs.drop_first(),
                    cur,
                    cur_r,
                    packet_tick,
                    manifest,
                );
            Self::lemma_apply_all_snoc(
                mid,
                mid_r,
                msgs.drop_first(),
                cur,
                cur_r,
                a,
                next,
                next_r,
                packet_tick,
                manifest,
            );
            assert(msgs.push(a)[0] == msgs[0]);
            assert(msgs.push(a).drop_first() =~= msgs.drop_first().push(a));
            assert(Self::apply_rel(pre, pre_r, msgs.push(a)[0], mid, mid_r, packet_tick, manifest));
        }
    }

    /// Read one incoming packet's entity-action block and apply it. A
    /// malformed block (unknown action type or truncated payload) is
    /// dropped whole: nothing changes and `false` comes back.
    #[verifier::rlimit(60)]
    pub fn process_data(
        &mut self,
        manifest: &crate::replica::Manifest,
        command_receiver: &mut CommandReceiver,
        packet_tick: u16,
        reader: &mut PacketReader,
    ) -> (r: bool)
        requires
            old(self).wf(),
            old(command_receiver).wf(),
            manifest.wf(),
            old(reader).wf(),
        ensures
            final(self).wf(),
            final(command_receiver).wf(),
            final(reader).wf(),
            r == parse_action_block(old(reader).remaining()).is_some(),
            !r ==> *final(self) == *old(self) && *final(command_receiver) == *old(command_receiver),
            r ==> Self::apply_all_rel(
                *old(self),
                *old(command_receiver),
                parse_action_block(old(reader).remaining()).unwrap(),
                *final(self),
                *final(command_receiver),
                packet_tick,
                manifest@,
            ),
    {
        let ghost rem0 = reader.remaining();
        let count = match reader.read_u8() {
            Some(c) => c,
            None => {
                return false;
            },
        };
        let mut parsed_types: Vec<u8> = Vec::new();
        let mut parsed_keys: Vec<u16> = Vec::new();
        let mut parsed_kinds: Vec<u16> = Vec::new();
        let mut parsed_masks: Vec<DiffMask> = Vec::new();
        let mut parsed_payloads: Vec<Vec<u8>> = Vec::new();
        proof {
            assert(reader.remaining() == rem0.skip(1));
        }
        let ghost wire_so_far = Seq::<WireAction>::empty();
        let mut i: u8 = 0;
        while i < count
            invariant
                i <= count,
                reader.wf(),
                manifest.wf(),
                *self == *old(self),
                *command_receiver == *old(command_receiver),
                old(self).wf(),
                old(command_receiver).wf(),
                rem0 == old(reader).remaining(),
                rem0.len() >= 1,
                rem0[0] == count,
                parsed_types@.len() == i,
                parsed_keys@.len() == i,
                parsed_kinds@.len() == i,
                parsed_masks@.len() == i,
                parsed_payloads@.len() == i,
                forall|a: int| 0 <= a < i ==> #[trigger] parsed_types@[a] <= 4,
                forall|a: int| 0 <= a < i ==> (#[trigger] parsed_masks@[a]).wf(),
                parse_actions(rem0.skip(1), count as nat).is_some() ==> (parse_actions(
                    reader.remaining(),
                    (count - i) as nat,
                ).is_some() && parse_actions(rem0.skip(1), count as nat).unwrap()
                    == Self::wire_views(
                    parsed_types@,
                    parsed_keys@,
                    parsed_kinds@,
                    parsed_masks@,
                    parsed_payloads@,
                ) + parse_actions(reader.remaining(), (count - i) as nat).unwrap()),
                parse_actions(rem0.skip(1), count as nat).is_none() <==> parse_actions(
                    reader.remaining(),
                    (count - i) as nat,
                ).is_none(),
            decreases count - i,
        {
            let ghost rem_before = reader.remaining();
            let action_type = match reader.read_u8() {
                Some(t) => t,
                None => {
                    proof {
                        assert(parse_actions(rem_before, (count - i) as nat).is_none());
                    }
                    return false;
                },
            };
            if action_type > 4 {
                proof {
                    assert(parse_actions(rem_before, (count - i) as nat).is_none());
                }
                return false;
            }
            if action_type == 0 {
                let kind = match reader.read_u16_be() {
                    Some(k) => k,
                    None => {
                        proof {
                            assert(rem_before.len() < 6);
                            assert(parse_actions(rem_before, (count - i) as nat).is_none());
                        }
                        return false;
                    },
                };
                let key = match reader.read_u16_be() {
                    Some(k) => k,
                    None => {
                        proof {
                            assert(rem_before.len() < 6);
                            assert(parse_actions(rem_before, (count - i) as nat).is_none());
                        }
                        return false;
                    },
                };
                let plen = match reader.read_u8() {
                    Some(n) => n,
                    None => {
                        proof {
                            assert(rem_before.len() < 6);
                            assert(parse_actions(rem_before, (count - i) as nat).is_none());
                        }
                        return false;
                    },
                };
                let payload = match reader.read_bytes(plen as usize) {
                    Some(b) => b,
                    None => {
                        proof {
                            assert(rem_before.len() >= 6);
                            assert(rem_before[5] == plen);
                            assert(rem_before.len() < 6 + plen);
                            assert(parse_actions(rem_before, (count - i) as nat).is_none());
                        }
                        return false;
                    },
                };
                proof {
                    assert(rem_before.len() >= 6 + plen);
                    assert(payload@ =~= rem_before.subrange(6, 6 + plen as int));
                    assert(reader.remaining() =~= rem_before.skip(6 + plen as int));
                }
                parsed_types.push(0);
                parsed_keys.push(key);
                parsed_kinds.push(kind);
                parsed_masks.push(DiffMask::new(0));
                parsed_payloads.push(payload);
            } else if action_type == 2 {
                let key = match reader.read_u16_be() {
                    Some(k) => k,
                    None => {
                        proof {
                            assert(rem_before.len() < 4);
                            assert(parse_actions(rem_before, (count - i) as nat).is_none());
                        }
                        return false;
                    },
                };
                let mask = match DiffMask::read(reader) {
                    Some(m) => m,
                    None => {
                        proof {
                            if rem_before.len() >= 4 {
                                assert(rem_before.skip(3).len() >= 1);
                                assert(rem_before.skip(3)[0] == rem_before[3]);
                                assert(rem_before.skip(3).len() < 1 + rem_before[3]);
                                assert(rem_before.len() < 4 + rem_before[3] + 1);
                            }
                            assert(parse_actions(rem_before, (count - i) as nat).is_none());
                        }
                        return false;
                    },
                };
                let ghost mlen = rem_before[3] as int;
                proof {
                    assert(rem_before.skip(3)[0] == rem_before[3]);
                    assert(mask@ =~= rem_before.subrange(4, 4 + mlen));
                    assert(reader.remaining() =~= rem_before.skip(4 + mlen));
                }
                let plen = match reader.read_u8() {
                    Some(n) => n,
                    None => {
                        proof {
                            assert(rem_before.len() < 4 + mlen + 1);
                            assert(parse_actions(rem_before, (count - i) as nat).is_none());
                        }
                        return false;
                    },
                };
                let payload = match reader.read_bytes(plen as usize) {
                    Some(b) => b,
                    None => {
                        proof {
                            assert(rem_before[4 + mlen] == plen);
                            assert(rem_before.len() < 5 + mlen + plen);
                            assert(parse_actions(rem_before, (count - i) as nat).is_none());
                        }
                        return false;
                    },
                };
                proof {
                    assert(rem_before[4 + mlen] == plen);
                    assert(payload@ =~= rem_before.subrange(5 + mlen, 5 + mlen + plen as int));
                    assert(reader.remaining() =~= rem_before.skip(5 + mlen + plen as int));
                }
                parsed_types.push(2);
                parsed_keys.push(key);
                parsed_kinds.push(0);
                parsed_masks.push(mask);
                parsed_payloads.push(payload);
            } else {
                let key = match reader.read_u16_be() {
                    Some(k) => k,
                    None => {
                        proof {
                            assert(rem_before.len() < 3);
                            assert(parse_actions(rem_before, (count - i) as nat).is_none());
                        }
                        return false;
                    },
                };
                proof {
                    assert(reader.remaining() =~= rem_before.skip(3));
                }
                parsed_types.push(action_type);
                parsed_keys.push(key);
                parsed_kinds.push(0);
                parsed_masks.push(DiffMask::new(0));
                parsed_payloads.push(Vec::new());
            }
            i = i + 1;
            proof {
                let views = Self::wire_views(
                    parsed_types@,
                    parsed_keys@,
                    parsed_kinds@,
                    parsed_masks@,
                    parsed_payloads@,
                );
                let views_prev = Self::wire_views(
                    parsed_types@.drop_last(),
                    parsed_keys@.drop_last(),
                    parsed_kinds@.drop_last(),
                    parsed_masks@.drop_last(),
                    parsed_payloads@.drop_last(),
                );
                assert(views =~= views_prev.push(views.last()));
                if parse_actions(rem0.skip(1), count as nat).is_some() {
                    let before = parse_actions(rem_before, (count - i + 1) as nat).unwrap();
                    let after = parse_actions(reader.remaining(), (count - i) as nat).unwrap();
                    assert(before == seq![views.last()] + after);
                    assert(views_prev + before =~= views + after);
                }
            }
        }
        proof {
            assert(parse_actions(reader.remaining(), 0) == Some(Seq::<WireAction>::empty()));
            if parse_actions(rem0.skip(1), count as nat).is_some() {
                assert(parse_actions(rem0.skip(1), count as nat).unwrap() =~= Self::wire_views(
                    parsed_types@,
                    parsed_keys@,
                    parsed_kinds@,
                    parsed_masks@,
                    parsed_payloads@,
                ));
            }
        }
        // commit: the block parsed whole, so apply each action in order
        let ghost all = Self::wire_views(
            parsed_types@,
            parsed_keys@,
            parsed_kinds@,
            parsed_masks@,
            parsed_payloads@,
        );
        let n = parsed_types.len();
        let mut j: usize = 0;
        proof {
            assert(all.take(0) =~= Seq::<WireAction>::empty());
        }
        while j < n
            invariant
                j <= n,
                n == parsed_types@.len(),
                n == parsed_keys@.len(),
                n == parsed_kinds@.len(),
                n == parsed_masks@.len(),
                n == parsed_payloads@.len(),
                all == Self::wire_views(
                    parsed_types@,
                    parsed_keys@,
                    parsed_kinds@,
                    parsed_masks@,
                    parsed_payloads@,
                ),
                all.len() == n,
                forall|a: int| 0 <= a < n ==> #[trigger] parsed_types@[a] <= 4,
                forall|a: int| 0 <= a < n ==> (#[trigger] parsed_masks@[a]).wf(),
                self.wf(),
                command_receiver.wf(),
                manifest.wf(),
                Self::apply_all_rel(
                    *old(self),
                    *old(command_receiver),
                    all.take(j as int),
                    *self,
                    *command_receiver,
                    packet_tick,
                    manifest@,
                ),
            decreases n - j,
        {
            let ghost pre = *self;
            let ghost pre_r = *command_receiver;
            let _ = self.apply_action(
                command_receiver,
                packet_tick,
                parsed_types[j],
                parsed_keys[j],
                parsed_kinds[j],
                &parsed_masks[j],
                &parsed_payloads[j],
                manifest,
            );
            j = j + 1;
            proof {
                assert(all[j - 1] == Self::wire_one(
                    parsed_types@[j - 1],
                    parsed_keys@[j - 1],
                    parsed_kinds@[j - 1],
                    parsed_masks@[j - 1],
                    parsed_payloads@[j - 1],
                ));
                assert(Self::apply_rel(
                    pre,
                    pre_r,
                    all[j - 1],
                    *self,
                    *command_receiver,
                    packet_tick,
                    manifest@,
                ));
                Self::lemma_apply_all_snoc(
                    *old(self),
                    *old(command_receiver),
                    all.take(j - 1),
                    pre,
                    pre_r,
                    all[j - 1],
                    *self,
                    *command_receiver,
                    packet_tick,
                    manifest@,
                );
                assert(all.take(j as int) =~= all.take(j - 1).push(all[j - 1]));
            }
        }
        proof {
            assert(all.take(n as int) =~= all);
        }
        true
    }

    /// The wire action a parsed tuple denotes.
    pub open spec fn wire_one(t: u8, key: u16, kind: u16, mask: DiffMask, payload: Vec<u8>) -> WireAction {
        if t == 0 {
            WireAction::Create { kind, local_key: key, payload: payload@ }
        } else if t == 1 {
            WireAction::Delete { local_key: key }
        } else if t == 2 {
            WireAction::Update { local_key: key, mask: mask@, payload: payload@ }
        } else if t == 3 {
            WireAction::AssignPawn { local_key: key }
        } else {
            WireAction::UnassignPawn { local_key: key }
        }
    }

    /// The wire actions a parsed tuple list denotes.
    pub open spec fn wire_views(
        types: Seq<u8>,
        keys: Seq<u16>,
        kinds: Seq<u16>,
        masks: Seq<DiffMask>,
        payloads: Seq<Vec<u8>>,
    ) -> Seq<WireAction> {
        Seq::new(types.len(), |a: int| Self::wire_one(types[a], keys[a], kinds[a], masks[a], payloads[a]))
    }
}

} // verus!
