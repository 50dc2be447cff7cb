//! Buffering and replay of locally issued commands.
//!
//! Commands are recorded per pawn under the tick they were issued at.
//! When the authoritative state at some tick contradicts the predicted
//! one, every recorded command issued after that tick is queued again, in
//! tick order, for re-application onto the corrected state.

use vstd::prelude::*;

use crate::keyed_vec::KeyedVec;
use crate::replica::{Replica, ReplicaView};
use crate::sequence_buffer::SequenceBuffer;
use std::collections::VecDeque;

verus! {

/// The tick circle successor.
pub open spec fn tick_inc(t: u16) -> u16 {
    if t == 0xffff {
        0
    } else {
        (t + 1) as u16
    }
}

/// Steps from `t` forward to `last` on the tick circle.
pub open spec fn tick_dist(t: u16, last: u16) -> int {
    (last - t) % 65536
}

pub struct CommandReceiver {
    pub command_history: KeyedVec<SequenceBuffer<Replica>>,
    pub queued_commands: VecDeque<(u16, u16, Replica)>,
}

impl CommandReceiver {
    /// The commands a replay hands back: those recorded at ticks walking
    /// `t` through `steps` successors, oldest first.
    pub open spec fn replay_seq(
        buf: SequenceBuffer<Replica>,
        pawn: u16,
        t: u16,
        steps: nat,
    ) -> Seq<(u16, u16, ReplicaView)>
        decreases steps,
    {
        if steps == 0 {
            seq![]
        } else {
            (match buf.spec_get(t) {
                Some(cmd) => seq![(t, pawn, cmd@)],
                None => seq![],
            }) + Self::replay_seq(buf, pawn, tick_inc(t), (steps - 1) as nat)
        }
    }

    pub open spec fn wf(self) -> bool {
        &&& self.command_history.wf()
        &&& forall|k: u16| #[trigger]
            self.command_history@.dom().contains(k) ==> self.command_history@[k].wf()
    }

    /// The queued commands awaiting application, front first.
    pub open spec fn queued(self) -> Seq<(u16, u16, ReplicaView)> {
        self.queued_commands.deep_view()
    }

    pub fn new() -> (r: CommandReceiver)
        ensures
            r.wf(),
            r.queued() == Seq::<(u16, u16, ReplicaView)>::empty(),
            r.command_history@ == Map::<u16, SequenceBuffer<Replica>>::empty(),
    {
        let r = CommandReceiver { command_history: KeyedVec::new(), queued_commands: VecDeque::new() };
        proof {
            assert(r.queued() =~= Seq::<(u16, u16, ReplicaView)>::empty());
        }
        r
    }

    /// Start recording for a pawn, with a fresh history ring.
    pub fn pawn_init(&mut self, pawn: u16)
        requires
            old(self).wf(),
        ensures
            final(self).wf(),
            final(self).command_history@.dom() == old(self).command_history@.dom().insert(pawn),
            final(self).command_history@[pawn].capacity() == 64,
            forall|s: u16| final(self).command_history@[pawn].spec_get(s).is_none(),
            forall|k: u16|
                final(self).command_history@.dom().contains(k) && k != pawn ==> final(self).command_history@[k]
                    == old(self).command_history@[k],
            final(self).queued() == old(self).queued(),
    {
        self.command_history.insert(pawn, SequenceBuffer::with_capacity(64));
        proof {
            assert(self.command_history@.dom() =~= old(self).command_history@.dom().insert(pawn));
        }
    }

    /// Stop recording for a pawn.
    pub fn pawn_cleanup(&mut self, pawn: u16)
        requires
            old(self).wf(),
        ensures
            final(self).wf(),
            final(self).command_history@ == old(self).command_history@.remove(pawn),
            final(self).queued() == old(self).queued(),
    {
        let _ = self.command_history.remove(pawn);
    }

    /// Record a command issued at `tick` and queue it for application.
    pub fn queue_command(&mut self, tick: u16, pawn: u16, command: &Replica)
        requires
            old(self).wf(),
        ensures
            final(self).wf(),
            final(self).queued() == old(self).queued().push((tick, pawn, command@)),
            final(self).command_history@.dom() == old(self).command_history@.dom(),
            old(self).command_history@.dom().contains(pawn) ==> (final(self).command_history@[pawn].spec_get(tick) matches Some(c) && c@ == command@),
    {
        let had = match self.command_history.remove(pawn) {
            Some(mut buf) => {
                buf.insert(tick, command.clone_replica());
                self.command_history.insert(pawn, buf);
                true
            },
            None => false,
        };
        self.queued_commands.push_back((tick, pawn, command.clone_replica()));
        proof {
            assert(self.queued() =~= old(self).queued().push((tick, pawn, command@)));
            assert(self.command_history@.dom() =~= old(self).command_history@.dom());
        }
    }

    /// The next queued command to apply.
    pub fn pop_command(&mut self) -> (r: Option<(u16, u16, Replica)>)
        requires
            old(self).wf(),
        ensures
            final(self).wf(),
            old(self).queued().len() == 0 ==> r.is_none() && final(self).queued() == old(self).queued(),
            old(self).queued().len() > 0 ==> (r matches Some(c) && (c.0, c.1, c.2@) == old(self).queued()[0] && final(self).queued() == old(self).queued().drop_first()),
            final(self).command_history == old(self).command_history,
    {
        let r = self.queued_commands.pop_front();
        proof {
            if old(self).queued().len() > 0 {
                assert(self.queued() =~= old(self).queued().drop_first());
            }
        }
        r
    }

    /// A prediction error at `packet_tick`: queue every recorded command
    /// issued after that tick again, oldest first, to replay onto the
    /// corrected state.
    #[verifier::rlimit(60)]
    pub fn replay_commands(&mut self, packet_tick: u16, pawn: u16)
        requires
            old(self).wf(),
        ensures
            final(self).wf(),
            final(self).command_history == old(self).command_history,
            !old(self).command_history@.dom().contains(pawn) ==> final(self).queued() == old(self).queued(),
            old(self).command_history@.dom().contains(pawn) ==> final(self).queued() == old(self).queued() + Self::replay_seq(
                old(self).command_history@[pawn],
                pawn,
                tick_inc(packet_tick),
                tick_dist(tick_inc(packet_tick), tick_inc(old(self).command_history@[pawn].newest)) as nat,
            ),
    {
        let newest = match self.command_history.get(pawn) {
            Some(buf) => buf.sequence_num(),
            None => {
                return ;
            },
        };
        let ghost buf0 = self.command_history@[pawn];
        let stop = if newest == 0xffff {
            0
        } else {
            newest + 1
        };
        proof {
            assert(stop == tick_inc(newest));
        }
        let mut t: u16 = if packet_tick == 0xffff {
            0
        } else {
            packet_tick + 1
        };
        proof {
            assert(t == tick_inc(packet_tick));
        }
        let ghost start = t;
        let ghost total = tick_dist(start, stop) as nat;
        while t != stop
            invariant
                self.wf(),
                self.command_history == old(self).command_history,
                self.command_history@.dom().contains(pawn),
                buf0 == self.command_history@[pawn],
                buf0.wf(),
                0 <= tick_dist(t, stop) <= total,
                Self::replay_seq(buf0, pawn, start, total) == self.queued().skip(
                    old(self).queued().len() as int,
                ) + Self::replay_seq(buf0, pawn, t, tick_dist(t, stop) as nat),
                self.queued().take(old(self).queued().len() as int) == old(self).queued(),
                self.queued().len() >= old(self).queued().len(),
            decreases tick_dist(t, stop),
        {
            proof {
                crate::seq::lemma_tick_dist_dec(t, stop);
            }
            let ghost q_pre = self.queued();
            let cmd = match self.command_history.get(pawn) {
                Some(buf) => {
                    match buf.get(t) {
                        Some(c) => Some(c.clone_replica()),
                        None => None,
                    }
                },
                None => None,
            };
            match cmd {
                Some(c) => {
                    self.queued_commands.push_back((t, pawn, c));
                    proof {
                        assert(self.queued() =~= q_pre.push((t, pawn, buf0.spec_get(t).unwrap()@)));
                    }
                },
                None => {},
            }
            let ghost t_old = t;
            t = if t == 0xffff {
                0
            } else {
                t + 1
            };
            proof {
                assert(t == tick_inc(t_old));
                assert(Self::replay_seq(buf0, pawn, t_old, tick_dist(t_old, stop) as nat)
                    == (match buf0.spec_get(t_old) {
                    Some(cmd2) => seq![(t_old, pawn, cmd2@)],
                    None => Seq::<(u16, u16, ReplicaView)>::empty(),
                }) + Self::replay_seq(buf0, pawn, t, tick_dist(t, stop) as nat));
                assert(self.queued().skip(old(self).queued().len() as int) =~= q_pre.skip(
                    old(self).queued().len() as int,
                ) + (match buf0.spec_get(t_old) {
                    Some(cmd2) => seq![(t_old, pawn, cmd2@)],
                    None => Seq::<(u16, u16, ReplicaView)>::empty(),
                }));
                assert(self.queued().take(old(self).queued().len() as int) =~= old(self).queued());
            }
        }
        proof {
            assert(tick_dist(t, stop) == 0);
            assert(Self::replay_seq(buf0, pawn, t, 0) =~= Seq::<(u16, u16, ReplicaView)>::empty());
            assert(Self::replay_seq(buf0, pawn, start, total) =~= self.queued().skip(
                old(self).queued().len() as int,
            ));
            assert(self.queued() =~= self.queued().take(old(self).queued().len() as int)
                + self.queued().skip(old(self).queued().len() as int));
        }
    }
}

} // verus!
