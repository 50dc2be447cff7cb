//! Reliable and unreliable application messages on the packet stream.
//!
//! Outgoing messages queue in order; popping one into a packet records a
//! copy under that packet's index when the message is guaranteed, so a
//! dropped packet re-enqueues exactly the guaranteed messages it carried
//! and a delivered packet forgets them. Non-guaranteed messages are never
//! recorded and are lost with the packet.

use vstd::prelude::*;

use crate::bytes::{u16_from_be, PacketReader};
use crate::keyed_vec::KeyedVec;
use crate::replica::{Manifest, Replica, ReplicaView};
use std::collections::VecDeque;

verus! {

/// The messages a block of `count` wire messages denotes: each one a kind
/// id followed by the kind's payload. `None` when the block is malformed.
pub open spec fn parse_messages(manifest: Map<u16, u8>, bytes: Seq<u8>, count: nat) -> Option<
    Seq<ReplicaView>,
>
    decreases count,
{
    if count == 0 {
        Some(seq![])
    } else if bytes.len() < 2 {
        None
    } else {
        let kind = u16_from_be(bytes[0], bytes[1]);
        if !manifest.dom().contains(kind) {
            None
        } else {
            let n = manifest[kind] as int;
            if bytes.len() < 2 + n {
                None
            } else {
                match parse_messages(manifest, bytes.skip(2 + n), (count - 1) as nat) {
                    Some(rest) => Some(
                        seq![ReplicaView { kind, properties: bytes.subrange(2, 2 + n) }] + rest,
                    ),
                    None => None,
                }
            }
        }
    }
}

/// A whole message block: a one-byte count, then that many messages.
pub open spec fn parse_message_block(manifest: Map<u16, u8>, bytes: Seq<u8>) -> Option<
    Seq<ReplicaView>,
> {
    if bytes.len() < 1 {
        None
    } else {
        parse_messages(manifest, bytes.skip(1), bytes[0] as nat)
    }
}

/// What is left of `bytes` once `count` messages are consumed off its
/// front; where a message does not parse, consumption stops there.
pub open spec fn after_messages(manifest: Map<u16, u8>, bytes: Seq<u8>, count: nat) -> Seq<u8>
    decreases count,
{
    if count == 0 {
        bytes
    } else if bytes.len() >= 2 {
        let kind = u16_from_be(bytes[0], bytes[1]);
        if manifest.dom().contains(kind) && bytes.len() >= 2 + manifest[kind] {
            after_messages(manifest, bytes.skip(2 + manifest[kind] as int), (count - 1) as nat)
        } else {
            bytes
        }
    } else {
        bytes
    }
}

/// The wire bytes of a run of messages: each one's kind id in
/// big-endian order, then its payload verbatim.
pub open spec fn message_block_bytes(msgs: Seq<(bool, ReplicaView)>) -> Seq<u8>
    decreases msgs.len(),
{
    if msgs.len() == 0 {
        seq![]
    } else {
        message_block_bytes(msgs.drop_last()) + crate::bytes::u16_be_bytes(msgs.last().1.kind)
            + msgs.last().1.properties
    }
}

/// Tracks outgoing and incoming messages and the delivery status of
/// guaranteed messages, so they can be re-transmitted to the remote host.
pub struct MessageManager {
    pub queued_outgoing_messages: VecDeque<(bool, Replica)>,
    pub queued_incoming_messages: VecDeque<Replica>,
    pub sent_guaranteed_messages: KeyedVec<Vec<Replica>>,
    pub last_popped_message_guarantee: bool,
}

impl MessageManager {
    pub open spec fn wf(self) -> bool {
        self.sent_guaranteed_messages.wf()
    }

    /// The outgoing queue: guarantee flag and message value, front first.
    pub open spec fn outgoing(self) -> Seq<(bool, ReplicaView)> {
        self.queued_outgoing_messages.deep_view()
    }

    /// The incoming queue, front first.
    pub open spec fn incoming(self) -> Seq<ReplicaView> {
        self.queued_incoming_messages.deep_view()
    }

    /// The guaranteed messages riding in each in-flight packet.
    pub open spec fn sent(self) -> Map<u16, Seq<ReplicaView>> {
        self.sent_guaranteed_messages@.map_values(|v: Vec<Replica>| v.deep_view())
    }

    /// Creates a new MessageManager.
    pub fn new() -> (r: MessageManager)
        ensures
            r.wf(),
            r.outgoing() == Seq::<(bool, ReplicaView)>::empty(),
            r.incoming() == Seq::<ReplicaView>::empty(),
            r.sent() == Map::<u16, Seq<ReplicaView>>::empty(),
            r.last_popped_message_guarantee == false,
    {
        let r = MessageManager {
            queued_outgoing_messages: VecDeque::new(),
            queued_incoming_messages: VecDeque::new(),
            sent_guaranteed_messages: KeyedVec::new(),
            last_popped_message_guarantee: false,
        };
        proof {
            assert(r.outgoing() =~= Seq::<(bool, ReplicaView)>::empty());
            assert(r.incoming() =~= Seq::<ReplicaView>::empty());
            assert(r.sent() =~= Map::<u16, Seq<ReplicaView>>::empty());
        }
        r
    }

    /// Whether queued messages wait to be transmitted to the remote host.
    pub fn has_outgoing_messages(&self) -> (r: bool)
        ensures
            r == (self.outgoing().len() != 0),
    {
        self.queued_outgoing_messages.len() != 0
    }

    /// Take the next queued message for the packet being written. A
    /// guaranteed message is also recorded under the packet index for
    /// retransmission on drop.
    #[verifier::rlimit(60)]
    pub fn pop_outgoing_message(&mut self, packet_index: u16) -> (r: Option<Replica>)
        requires
            old(self).wf(),
        ensures
            final(self).wf(),
            old(self).outgoing().len() == 0 ==> r.is_none() && final(self).outgoing() == old(
                self,
            ).outgoing() && final(self).incoming() == old(self).incoming() && final(self).sent()
                == old(self).sent() && final(self).last_popped_message_guarantee == old(
                self,
            ).last_popped_message_guarantee,
            old(self).outgoing().len() > 0 ==> {
                let guaranteed = old(self).outgoing()[0].0;
                let msg = old(self).outgoing()[0].1;
                &&& r.is_some() && r.unwrap()@ == msg
                &&& final(self).outgoing() == old(self).outgoing().drop_first()
                &&& final(self).incoming() == old(self).incoming()
                &&& final(self).last_popped_message_guarantee == guaranteed
                &&& (if guaranteed {
                    final(self).sent() == old(self).sent().insert(
                        packet_index,
                        (if old(self).sent().dom().contains(packet_index) {
                            old(self).sent()[packet_index]
                        } else {
                            Seq::<ReplicaView>::empty()
                        }).push(msg),
                    )
                } else {
                    final(self).sent() == old(self).sent()
                })
            },
    {
        match self.queued_outgoing_messages.pop_front() {
            Some((guaranteed, message)) => {
                if guaranteed {
                    let mut list = match self.sent_guaranteed_messages.remove(packet_index) {
                        Some(list) => list,
                        None => Vec::new(),
                    };
                    let ghost list0 = list.deep_view();
                    list.push(message.clone_replica());
                    proof {
                        assert(list.deep_view() =~= list0.push(message@));
                    }
                    self.sent_guaranteed_messages.insert(packet_index, list);
                    proof {
                        assert(self.sent() =~~= old(self).sent().insert(
                            packet_index,
                            (if old(self).sent().dom().contains(packet_index) {
                                old(self).sent()[packet_index]
                            } else {
                                Seq::<ReplicaView>::empty()
                            }).push(old(self).outgoing()[0].1),
                        ));
                    }
                } else {
                    proof {
                        assert(self.sent() =~~= old(self).sent());
                    }
                }
                self.last_popped_message_guarantee = guaranteed;
                proof {
                    assert(self.outgoing() =~~= old(self).outgoing().drop_first());
                    assert(self.incoming() =~~= old(self).incoming());
                }
                Some(message)
            },
            None => {
                proof {
                    assert(self.outgoing() =~~= old(self).outgoing());
                    assert(self.incoming() =~~= old(self).incoming());
                    assert(self.sent() =~~= old(self).sent());
                }
                None
            },
        }
    }

    /// Put back the message most recently popped, when it did not fit in
    /// the packet: its transmission record is erased and it returns to the
    /// front of the queue.
    #[verifier::rlimit(60)]
    pub fn unpop_outgoing_message(&mut self, packet_index: u16, message: Replica)
        requires
            old(self).wf(),
        ensures
            final(self).wf(),
            final(self).outgoing() == seq![
                (old(self).last_popped_message_guarantee, message@),
            ] + old(self).outgoing(),
            final(self).incoming() == old(self).incoming(),
            final(self).last_popped_message_guarantee == old(self).last_popped_message_guarantee,
            (if old(self).last_popped_message_guarantee && old(self).sent().dom().contains(
                packet_index,
            ) {
                if old(self).sent()[packet_index].len() <= 1 {
                    final(self).sent() == old(self).sent().remove(packet_index)
                } else {
                    final(self).sent() == old(self).sent().insert(
                        packet_index,
                        old(self).sent()[packet_index].drop_last(),
                    )
                }
            } else {
                final(self).sent() == old(self).sent()
            }),
    {
        if self.last_popped_message_guarantee {
            match self.sent_guaranteed_messages.remove(packet_index) {
                Some(mut list) => {
                    let ghost list0 = list.deep_view();
                    let _ = list.pop();
                    if list.len() == 0 {
                        proof {
                            assert(self.sent() =~~= old(self).sent().remove(packet_index));
                        }
                    } else {
                        proof {
                            assert(list.deep_view() =~= list0.drop_last());
                        }
                        self.sent_guaranteed_messages.insert(packet_index, list);
                        proof {
                            assert(self.sent() =~~= old(self).sent().insert(
                                packet_index,
                                old(self).sent()[packet_index].drop_last(),
                            ));
                        }
                    }
                },
                None => {
                    proof {
                        assert(self.sent() =~~= old(self).sent());
                    }
                },
            }
        } else {
            proof {
                assert(self.sent() =~~= old(self).sent());
            }
        }
        let ghost sent_mid = self.sent();
        self.queued_outgoing_messages.push_front(
            (self.last_popped_message_guarantee, message),
        );
        proof {
            assert(self.sent() =~~= sent_mid);
            assert(self.outgoing() =~~= seq![
                (old(self).last_popped_message_guarantee, message@),
            ] + old(self).outgoing());
            assert(self.incoming() =~~= old(self).incoming());
        }
    }

    /// Queue a copy of a message for transmission to the remote host.
    pub fn queue_outgoing_message(&mut self, message: &Replica, guaranteed_delivery: bool)
        requires
            old(self).wf(),
        ensures
            final(self).wf(),
            final(self).outgoing() == old(self).outgoing().push((guaranteed_delivery, message@)),
            final(self).incoming() == old(self).incoming(),
            final(self).sent() == old(self).sent(),
            final(self).last_popped_message_guarantee == old(self).last_popped_message_guarantee,
    {
        self.queued_outgoing_messages.push_back((guaranteed_delivery, message.clone_replica()));
        proof {
            assert(self.outgoing() =~~= old(self).outgoing().push(
                (guaranteed_delivery, message@),
            ));
            assert(self.incoming() =~~= old(self).incoming());
            assert(self.sent() =~~= old(self).sent());
        }
    }

    /// Whether received messages wait to be handed to the application.
    pub fn has_incoming_messages(&self) -> (r: bool)
        ensures
            r == (self.incoming().len() != 0),
    {
        self.queued_incoming_messages.len() != 0
    }

    /// The earliest received message not yet handed out.
    pub fn pop_incoming_message(&mut self) -> (r: Option<Replica>)
        ensures
            final(self).wf() == old(self).wf(),
            old(self).incoming().len() == 0 ==> r.is_none() && final(self).incoming() == old(
                self,
            ).incoming() && final(self).outgoing() == old(self).outgoing() && final(self).sent()
                == old(self).sent() && final(self).last_popped_message_guarantee == old(
                self,
            ).last_popped_message_guarantee,
            old(self).incoming().len() > 0 ==> r.is_some() && r.unwrap()@ == old(self).incoming()[0]
                && final(self).incoming() == old(self).incoming().drop_first()
                && final(self).outgoing() == old(self).outgoing()
                && final(self).sent() == old(self).sent(),
            old(self).queued_incoming_messages@.len() > 0 ==> (r matches Some(m) && m == old(self).queued_incoming_messages@[0]
                && final(self).queued_incoming_messages@ == old(self).queued_incoming_messages@.drop_first()),
            final(self).queued_outgoing_messages == old(self).queued_outgoing_messages,
            final(self).sent_guaranteed_messages == old(self).sent_guaranteed_messages,
            final(self).last_popped_message_guarantee == old(self).last_popped_message_guarantee,
    {
        let r = self.queued_incoming_messages.pop_front();
        proof {
            if old(self).incoming().len() > 0 {
                assert(self.incoming() =~~= old(self).incoming().drop_first());
            } else {
                assert(self.incoming() =~~= old(self).incoming());
            }
            assert(self.outgoing() =~~= old(self).outgoing());
            assert(self.sent() =~~= old(self).sent());
        }
        r
    }

    /// Read the messages of an incoming packet and store them for the
    /// application. A malformed block (unknown kind or truncated payload)
    /// is dropped whole: the manager is unchanged and `false` comes back.
    #[verifier::rlimit(60)]
    pub fn process_data(&mut self, reader: &mut PacketReader, manifest: &Manifest) -> (r: bool)
        requires
            old(self).wf(),
            old(reader).wf(),
            manifest.wf(),
        ensures
            final(self).wf(),
            final(reader).wf(),
            match parse_message_block(manifest@, old(reader).remaining()) {
                Some(msgs) => r && final(self).incoming() == old(self).incoming() + msgs
                    && final(self).outgoing() == old(self).outgoing()
                    && final(self).sent() == old(self).sent()
                    && final(self).last_popped_message_guarantee
                        == old(self).last_popped_message_guarantee
                    && final(reader).remaining() == after_messages(
                    manifest@,
                    old(reader).remaining().skip(1),
                    old(reader).remaining()[0] as nat,
                ),
                None => !r && final(self).incoming() == old(self).incoming()
                    && final(self).outgoing() == old(self).outgoing()
                    && final(self).sent() == old(self).sent()
                    && final(self).last_popped_message_guarantee
                        == old(self).last_popped_message_guarantee,
            },
    {
        let ghost rem0 = old(reader).remaining();
        let count = match reader.read_u8() {
            Some(c) => c,
            None => {
                return false;
            },
        };
        let mut parsed: Vec<Replica> = Vec::new();
        proof {
            assert(parsed.deep_view() =~= Seq::<ReplicaView>::empty());
            assert(reader.remaining() == rem0.skip(1));
        }
        let mut i: u8 = 0;
        while i < count
            invariant
                i <= count,
                reader.wf(),
                manifest.wf(),
                self == old(self),
                old(self).wf(),
                rem0 == old(reader).remaining(),
                rem0.len() >= 1,
                rem0[0] == count,
                parse_messages(manifest@, rem0.skip(1), count as nat) matches Some(all) ==> (
                parse_messages(manifest@, reader.remaining(), (count - i) as nat) matches Some(rest)
                    && all == parsed.deep_view() + rest),
                parse_messages(manifest@, rem0.skip(1), count as nat).is_none()
                    <==> parse_messages(manifest@, reader.remaining(), (count - i) as nat).is_none(),
                after_messages(manifest@, rem0.skip(1), count as nat) == after_messages(
                    manifest@,
                    reader.remaining(),
                    (count - i) as nat,
                ),
            decreases count - i,
        {
            let ghost rem_before = reader.remaining();
            let kind = match reader.read_u16_be() {
                Some(k) => k,
                None => {
                    proof {
                        assert(reader.remaining().len() < 2);
                        assert(parse_messages(
                            manifest@,
                            reader.remaining(),
                            (count - i) as nat,
                        ).is_none());
                        assert(parse_message_block(manifest@, rem0).is_none());
                    }
                    return false;
                },
            };
            let message = match manifest.create_replica(kind, reader) {
                Some(m) => m,
                None => {
                    proof {
                        assert(rem_before.len() >= 2);
                        assert(u16_from_be(rem_before[0], rem_before[1]) == kind);
                        if manifest@.dom().contains(kind) {
                            assert(rem_before.skip(2).len() < manifest@[kind]);
                            assert(rem_before.len() < 2 + manifest@[kind]);
                        }
                        assert(parse_messages(
                            manifest@,
                            rem_before,
                            (count - i) as nat,
                        ).is_none());
                        assert(parse_message_block(manifest@, rem0).is_none());
                    }
                    return false;
                },
            };
            let ghost parsed0 = parsed.deep_view();
            parsed.push(message);
            proof {
                let n = manifest@[kind] as int;
                assert(rem_before.len() >= 2);
                assert(rem_before.skip(2).len() >= n);
                assert(message@.properties =~= rem_before.skip(2).take(n));
                assert(message@.properties =~= rem_before.subrange(2, 2 + n));
                assert(reader.remaining() =~= rem_before.skip(2 + n));
                assert(parsed.deep_view() =~= parsed0.push(message@));
                assert(message@ == ReplicaView {
                    kind,
                    properties: rem_before.subrange(2, 2 + n),
                });
                if parse_messages(manifest@, rem0.skip(1), count as nat).is_some() {
                    let rest = parse_messages(
                        manifest@,
                        rem_before,
                        (count - i) as nat,
                    ).unwrap();
                    let rest2 = parse_messages(
                        manifest@,
                        reader.remaining(),
                        (count - i - 1) as nat,
                    ).unwrap();
                    assert(rest == seq![message@] + rest2);
                    assert(parsed.deep_view() + rest2 =~= parsed0 + rest);
                }
                assert(after_messages(manifest@, rem_before, (count - i) as nat)
                    == after_messages(manifest@, reader.remaining(), (count - i - 1) as nat));
            }
            i = i + 1;
        }
        // commit: every message of the block parsed
        proof {
            assert(parse_messages(manifest@, reader.remaining(), 0) == Some(
                Seq::<ReplicaView>::empty(),
            ));
            assert(after_messages(manifest@, reader.remaining(), 0) == reader.remaining());
            assert(reader.remaining() == after_messages(manifest@, rem0.skip(1), count as nat));
            if parse_messages(manifest@, rem0.skip(1), count as nat).is_some() {
                let all = parse_messages(manifest@, rem0.skip(1), count as nat).unwrap();
                assert(all == parsed.deep_view() + parse_messages(
                    manifest@,
                    reader.remaining(),
                    0,
                ).unwrap());
                assert(all =~= parsed.deep_view());
            }
        }
        let ghost incoming0 = self.queued_incoming_messages.deep_view();
        let mut j: usize = 0;
        let n = parsed.len();
        while j < n
            invariant
                j <= n,
                n == parsed.deep_view().len(),
                self.queued_incoming_messages.deep_view() == incoming0 + parsed.deep_view().take(
                    j as int,
                ),
                self.queued_outgoing_messages == old(self).queued_outgoing_messages,
                self.sent_guaranteed_messages == old(self).sent_guaranteed_messages,
                self.last_popped_message_guarantee == old(self).last_popped_message_guarantee,
                old(self).wf(),
                self.wf(),
            decreases n - j,
        {
            let ghost q0 = self.queued_incoming_messages.deep_view();
            let msg = parsed[j].clone_replica();
            proof {
                assert(msg@ == parsed.deep_view()[j as int]);
            }
            self.queued_incoming_messages.push_back(msg);
            j = j + 1;
            proof {
                assert(self.queued_incoming_messages.deep_view() =~= q0.push(
                    parsed.deep_view()[j - 1],
                ));
                assert(parsed.deep_view().take(j as int) =~= parsed.deep_view().take(j - 1).push(
                    parsed.deep_view()[j - 1],
                ));
                assert(self.queued_incoming_messages.deep_view() =~= incoming0
                    + parsed.deep_view().take(j as int));
            }
        }
        proof {
            assert(parsed.deep_view().take(n as int) =~= parsed.deep_view());
            assert(self.incoming() =~= old(self).incoming() + parsed.deep_view());
            assert(self.outgoing() =~~= old(self).outgoing());
            assert(self.sent() =~~= old(self).sent());
        }
        true
    }

    /// A packet carrying guaranteed messages was delivered: stop tracking
    /// them.
    pub fn notify_packet_delivered(&mut self, packet_index: u16)
        requires
            old(self).wf(),
        ensures
            final(self).wf(),
            final(self).sent() == old(self).sent().remove(packet_index),
            final(self).outgoing() == old(self).outgoing(),
            final(self).incoming() == old(self).incoming(),
            final(self).last_popped_message_guarantee == old(self).last_popped_message_guarantee,
    {
        let _ = self.sent_guaranteed_messages.remove(packet_index);
        proof {
            assert(self.sent() =~~= old(self).sent().remove(packet_index));
            assert(self.outgoing() =~~= old(self).outgoing());
            assert(self.incoming() =~~= old(self).incoming());
        }
    }

    /// A packet was dropped: re-queue, in their original order, exactly the
    /// guaranteed messages it carried, and stop tracking it.
    #[verifier::rlimit(60)]
    pub fn notify_packet_dropped(&mut self, packet_index: u16)
        requires
            old(self).wf(),
        ensures
            final(self).wf(),
            final(self).sent() == old(self).sent().remove(packet_index),
            final(self).incoming() == old(self).incoming(),
            final(self).last_popped_message_guarantee == old(self).last_popped_message_guarantee,
            final(self).outgoing() == old(self).outgoing() + (if old(self).sent().dom().contains(
                packet_index,
            ) {
                old(self).sent()[packet_index].map_values(|m: ReplicaView| (true, m))
            } else {
                Seq::<(bool, ReplicaView)>::empty()
            }),
    {
        match self.sent_guaranteed_messages.remove(packet_index) {
            Some(dropped) => {
                let ghost out0 = self.queued_outgoing_messages.deep_view();
                let ghost entries_after = self.sent_guaranteed_messages.entries@;
                let mut j: usize = 0;
                let n = dropped.len();
                while j < n
                    invariant
                        j <= n,
                        n == dropped.deep_view().len(),
                        self.queued_outgoing_messages.deep_view() == out0
                            + dropped.deep_view().take(j as int).map_values(
                            |m: ReplicaView| (true, m),
                        ),
                        self.queued_incoming_messages == old(self).queued_incoming_messages,
                        self.sent_guaranteed_messages.entries@ == entries_after,
                        self.last_popped_message_guarantee
                            == old(self).last_popped_message_guarantee,
                    decreases n - j,
                {
                    let ghost q0 = self.queued_outgoing_messages.deep_view();
                    let msg = dropped[j].clone_replica();
                    proof {
                        assert(msg@ == dropped.deep_view()[j as int]);
                    }
                    self.queued_outgoing_messages.push_back((true, msg));
                    j = j + 1;
                    proof {
                        assert(self.queued_outgoing_messages.deep_view() =~= q0.push(
                            (true, dropped.deep_view()[j - 1]),
                        ));
                        assert(dropped.deep_view().take(j as int).map_values(
                            |m: ReplicaView| (true, m),
                        ) =~= dropped.deep_view().take(j - 1).map_values(
                            |m: ReplicaView| (true, m),
                        ).push((true, dropped.deep_view()[j - 1])));
                        assert(self.queued_outgoing_messages.deep_view() =~= out0
                            + dropped.deep_view().take(j as int).map_values(
                            |m: ReplicaView| (true, m),
                        ));
                    }
                }
                proof {
                    assert(dropped.deep_view().take(n as int) =~= dropped.deep_view());
                    assert(self.sent() =~~= old(self).sent().remove(packet_index));
                    assert(old(self).sent()[packet_index] == dropped.deep_view());
                    assert(self.incoming() =~~= old(self).incoming());
                    assert(self.outgoing() =~~= old(self).outgoing()
                        + old(self).sent()[packet_index].map_values(|m: ReplicaView| (true, m)));
                }
            },
            None => {
                proof {
                    assert(self.sent() =~~= old(self).sent().remove(packet_index));
                    assert(self.outgoing() =~~= old(self).outgoing() + Seq::<(
                        bool,
                        ReplicaView,
                    )>::empty());
                    assert(self.incoming() =~~= old(self).incoming());
                }
            },
        }
    }
}

} // verus!
