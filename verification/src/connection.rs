//! Per-connection bookkeeping: sequence numbers, acknowledgements,
//! heartbeats and timeouts, and the handshake state machine.
//!
//! Each outgoing packet takes the next wrapping sequence number and is
//! tracked until an incoming header acknowledges it or it falls out of
//! the 32-packet acknowledgement window, which counts as a drop. Timers
//! are pure: the driver reports elapsed milliseconds and the connection
//! decides; the engine itself never reads a clock.

use vstd::prelude::*;

use crate::keyed_vec::KeySet;
use crate::seq::{seq_gt_spec, sequence_greater_than, wrap_diff_spec, wrapping_diff};
use crate::sequence_buffer::SequenceBuffer;

verus! {

/// Whether bit `i` of a 32-bit field is set.
pub open spec fn bit32(f: u32, i: u32) -> bool
    recommends
        i < 32,
{
    (f >> i) & 1 == 1
}

/// Setting bit `k` of a 32-bit field leaves every other bit in place.
proof fn lemma_set_bit32(f: u32, k: u32, j: u32)
    requires
        k < 32,
        j < 32,
    ensures
        bit32(f | (1u32 << k), j) == (j == k || bit32(f, j)),
{
    assert(((f | (1u32 << k)) >> j) & 1 == if j == k || ((f >> j) & 1 == 1) {
        1u32
    } else {
        0u32
    }) by (bit_vector)
        requires
            k < 32,
            j < 32,
    ;
}

/// No bit of zero is set.
proof fn lemma_zero_bit32(j: u32)
    requires
        j < 32,
    ensures
        !bit32(0u32, j),
{
    assert((0u32 >> j) & 1 == 0) by (bit_vector);
}

/// The sequence number `k` steps behind `last` on the circle.
pub open spec fn seq_back(last: u16, k: int) -> u16 {
    (((last - k) % 65536)) as u16
}

/// Two wrapping subtractions land `k + 1` steps back.
proof fn lemma_seq_back_steps(last: u16, i: u32)
    requires
        i < 32,
    ensures
        ({
            let w1 = if last - i >= 0 {
                (last - i) as u16
            } else {
                (last - i + 65536) as u16
            };
            let w2 = if w1 - 1 >= 0 {
                (w1 - 1) as u16
            } else {
                (w1 - 1 + 65536) as u16
            };
            w2 == seq_back(last, i + 1)
        }),
{
    let w1 = if last - i >= 0 {
        (last - i) as u16
    } else {
        (last - i + 65536) as u16
    };
    assert(w1 as int == (last - i) % 65536) by (nonlinear_arith)
        requires
            w1 == if last - i >= 0 {
                (last - i) as u16
            } else {
                (last - i + 65536) as u16
            },
            0 <= last < 65536,
            0 <= i < 32,
    ;
    let w2 = if w1 - 1 >= 0 {
        (w1 - 1) as u16
    } else {
        (w1 - 1 + 65536) as u16
    };
    assert(w2 as int == (last - i - 1) % 65536) by (nonlinear_arith)
        requires
            w1 as int == (last - i) % 65536,
            w2 == if w1 - 1 >= 0 {
                (w1 - 1) as u16
            } else {
                (w1 - 1 + 65536) as u16
            },
            0 <= last < 65536,
            0 <= i < 32,
    ;
}

/// The packet indices an acknowledgement header names: the ack itself
/// and, for each set bit `i` of the field, the index `i + 1` before it.
pub open spec fn ack_named(ack: u16, bitfield: u32) -> Set<u16> {
    ack_named_prefix(ack, bitfield, 32)
}

/// The indices named by the ack and the first `n` bits of the field.
pub open spec fn ack_named_prefix(ack: u16, bitfield: u32, n: int) -> Set<u16> {
    Set::new(
        |q: u16|
            q == ack || exists|i: u32|
                i < n && #[trigger] bit32(bitfield, i) && q == seq_back(ack, i + 1),
    )
}

/// One more bit of the field names one more index.
proof fn lemma_named_prefix_step(ack: u16, bitfield: u32, i: int)
    requires
        1 <= i <= 32,
    ensures
        forall|q: u16|
            ack_named_prefix(ack, bitfield, i).contains(q) <==> (ack_named_prefix(
                ack,
                bitfield,
                i - 1,
            ).contains(q) || (bit32(bitfield, (i - 1) as u32) && q == seq_back(ack, i))),
{
    assert forall|q: u16|
        ack_named_prefix(ack, bitfield, i).contains(q) <==> (ack_named_prefix(
            ack,
            bitfield,
            i - 1,
        ).contains(q) || (bit32(bitfield, (i - 1) as u32) && q == seq_back(ack, i))) by {
        if ack_named_prefix(ack, bitfield, i).contains(q) {
            if q != ack {
                let w = choose|w: u32|
                    w < i && #[trigger] bit32(bitfield, w) && q == seq_back(ack, w + 1);
                if w < i - 1 {
                    assert(ack_named_prefix(ack, bitfield, i - 1).contains(q));
                } else {
                    assert(w == i - 1);
                    assert(q == seq_back(ack, i));
                }
            } else {
                assert(ack_named_prefix(ack, bitfield, i - 1).contains(q));
            }
        }
        if ack_named_prefix(ack, bitfield, i - 1).contains(q) {
            if q != ack {
                let w = choose|w: u32|
                    w < i - 1 && #[trigger] bit32(bitfield, w) && q == seq_back(ack, w + 1);
                assert(w < i && bit32(bitfield, w) && q == seq_back(ack, w + 1));
                assert(ack_named_prefix(ack, bitfield, i).contains(q));
            }
        }
        if bit32(bitfield, (i - 1) as u32) && q == seq_back(ack, i) {
            let w: u32 = (i - 1) as u32;
            assert(w < i && bit32(bitfield, w) && q == seq_back(ack, w + 1));
            assert(ack_named_prefix(ack, bitfield, i).contains(q));
        }
    }
}

/// The lifecycle of one connection.
#[derive(Clone, Copy, Debug, PartialEq, Eq, Structural)]
pub enum ConnectionState {
    AwaitingChallengeResponse,
    AwaitingConnectResponse,
    Connected,
    Disconnected,
}

/// A millisecond countdown the driver advances.
#[derive(Clone, Copy, Debug, PartialEq, Eq, Structural)]
pub struct Timer {
    pub duration_ms: u64,
    pub elapsed_ms: u64,
}

impl Timer {
    pub fn new(duration_ms: u64) -> (r: Timer)
        ensures
            r.duration_ms == duration_ms,
            r.elapsed_ms == 0,
    {
        Timer { duration_ms, elapsed_ms: 0 }
    }

    /// Account for time the driver reports.
    pub fn register_elapsed(&mut self, ms: u64)
        ensures
            final(self).duration_ms == old(self).duration_ms,
            final(self).elapsed_ms == (if old(self).elapsed_ms + ms <= u64::MAX {
                old(self).elapsed_ms + ms
            } else {
                u64::MAX as int
            }),
    {
        if ms <= u64::MAX - self.elapsed_ms {
            self.elapsed_ms = self.elapsed_ms + ms;
        } else {
            self.elapsed_ms = u64::MAX;
        }
    }

    /// Whether the countdown ran out.
    pub fn ringing(&self) -> (r: bool)
        ensures
            r == (self.elapsed_ms >= self.duration_ms),
    {
        self.elapsed_ms >= self.duration_ms
    }

    pub fn reset(&mut self)
        ensures
            final(self).duration_ms == old(self).duration_ms,
            final(self).elapsed_ms == 0,
    {
        self.elapsed_ms = 0;
    }
}

/// The host's logical clock: a wrapping 16-bit tick that advances once
/// per configured interval of reported time; tickless when no interval
/// is set.
pub struct TickManager {
    pub tick: u16,
    pub interval_ms: Option<u64>,
    pub accum_ms: u64,
}

impl TickManager {
    pub open spec fn wf(self) -> bool {
        match self.interval_ms {
            Some(iv) => iv >= 1,
            None => true,
        }
    }

    pub fn new(interval_ms: Option<u64>) -> (r: TickManager)
        requires
            interval_ms matches Some(iv) ==> iv >= 1,
        ensures
            r.wf(),
            r.tick == 0,
            r.interval_ms == interval_ms,
            r.accum_ms == 0,
    {
        TickManager { tick: 0, interval_ms, accum_ms: 0 }
    }

    pub fn get_tick(&self) -> (r: u16)
        ensures
            r == self.tick,
    {
        self.tick
    }

    /// Account for time; the tick advances once per full interval, and
    /// the call says whether it advanced at all.
    pub fn register_elapsed(&mut self, ms: u64) -> (ticked: bool)
        requires
            old(self).wf(),
            ms < 0x1000000,
            old(self).accum_ms < 0x1000000,
        ensures
            final(self).wf(),
            final(self).interval_ms == old(self).interval_ms,
            old(self).interval_ms is None ==> !ticked && final(self).tick == old(self).tick,
            old(self).interval_ms matches Some(iv) ==> ticked == (old(self).accum_ms + ms >= iv)
                && final(self).accum_ms == (old(self).accum_ms + ms) as u64 % iv && (!ticked
                ==> final(self).tick == old(self).tick),
    {
        match self.interval_ms {
            Some(iv) => {
                let total = self.accum_ms + ms;
                if total >= iv {
                    let mut steps = total / iv;
                    self.accum_ms = total % iv;
                    let ghost accum_now = self.accum_ms;
                    while steps > 0
                        invariant
                            self.interval_ms == old(self).interval_ms,
                            self.accum_ms == accum_now,
                            self.wf(),
                        decreases steps,
                    {
                        self.tick = self.tick.wrapping_add(1);
                        steps = steps - 1;
                    }
                    true
                } else {
                    self.accum_ms = total;
                    proof {
                        assert(total < iv);
                        assert(iv >= 1);
                        assert(total as int % iv as int == total as int) by (nonlinear_arith)
                            requires
                                0 <= total < iv,
                        ;
                    }
                    false
                }
            },
            None => false,
        }
    }
}

/// Sequence-number allocation and acknowledgement tracking for one side
/// of a connection.
pub struct AckManager {
    pub sequence_number: u16,
    pub outstanding: KeySet,
    pub last_remote_seq: u16,
    pub any_remote_seen: bool,
    pub received: SequenceBuffer<()>,
}

impl AckManager {
    pub open spec fn wf(self) -> bool {
        &&& self.outstanding.wf()
        &&& self.received.wf()
        &&& self.received.capacity() == 64
    }

    pub fn new() -> (r: AckManager)
        ensures
            r.wf(),
            r.sequence_number == 0,
            r.last_remote_seq == 0,
            r.outstanding@ == Set::<u16>::empty(),
            r.any_remote_seen == false,
            forall|s: u16| r.received.spec_get(s).is_none(),
    {
        AckManager {
            sequence_number: 0,
            outstanding: KeySet::new(),
            last_remote_seq: 0,
            any_remote_seen: false,
            received: SequenceBuffer::with_capacity(64),
        }
    }

    /// Take the next outgoing packet index and track it as in flight.
    pub fn next_packet_index(&mut self) -> (r: u16)
        requires
            old(self).wf(),
        ensures
            final(self).wf(),
            r == old(self).sequence_number,
            final(self).sequence_number == crate::entity_manager::EntityManager::wrap_inc(r),
            final(self).outstanding@ == old(self).outstanding@.insert(r),
            final(self).last_remote_seq == old(self).last_remote_seq,
            final(self).any_remote_seen == old(self).any_remote_seen,
            final(self).received == old(self).received,
    {
        let r = self.sequence_number;
        self.sequence_number = self.sequence_number.wrapping_add(1);
        self.outstanding.insert(r);
        r
    }

    /// The acknowledgement fields for an outgoing header: the newest
    /// remote sequence, and one bit for each of the 32 before it.
    pub fn ack_fields(&self) -> (r: (u16, u32))
        requires
            self.wf(),
        ensures
            r.0 == self.last_remote_seq,
            forall|i: u32|
                i < 32 ==> #[trigger] bit32(r.1, i) == self.received.spec_get(
                    seq_back(self.last_remote_seq, i + 1),
                ).is_some(),
    {
        let mut field: u32 = 0;
        let mut i: u32 = 0;
        proof {
            assert forall|j: u32| j < 32 implies !bit32(0u32, j) by {
                lemma_zero_bit32(j);
            }
        }
        while i < 32
            invariant
                i <= 32,
                self.wf(),
                forall|j: u32|
                    j < i ==> #[trigger] bit32(field, j) == self.received.spec_get(
                        seq_back(self.last_remote_seq, j + 1),
                    ).is_some(),
                forall|j: u32| i <= j < 32 ==> !(#[trigger] bit32(field, j)),
            decreases 32 - i,
        {
            let probe = self.last_remote_seq.wrapping_sub(i as u16).wrapping_sub(1);
            proof {
                lemma_seq_back_steps(self.last_remote_seq, i);
                assert(probe == seq_back(self.last_remote_seq, i + 1));
            }
            let got = match self.received.get(probe) {
                Some(_) => true,
                None => false,
            };
            let ghost field0 = field;
            if got {
                field = field | (1u32 << i);
                proof {
                    assert forall|j: u32| j < 32 implies #[trigger] bit32(field, j) == (j == i
                        || bit32(field0, j)) by {
                        lemma_set_bit32(field0, i, j);
                    }
                }
            }
            i = i + 1;
        }
        (self.last_remote_seq, field)
    }

    /// Record an incoming remote sequence number for future acks.
    pub fn mark_received(&mut self, remote_seq: u16)
        requires
            old(self).wf(),
        ensures
            final(self).wf(),
            final(self).received.spec_get(remote_seq) is Some,
            final(self).last_remote_seq == (if !old(self).any_remote_seen || seq_gt_spec(
                remote_seq,
                old(self).last_remote_seq,
            ) {
                remote_seq
            } else {
                old(self).last_remote_seq
            }),
            final(self).any_remote_seen,
            final(self).sequence_number == old(self).sequence_number,
            final(self).outstanding == old(self).outstanding,
    {
        self.received.insert(remote_seq, ());
        if !self.any_remote_seen || sequence_greater_than(remote_seq, self.last_remote_seq) {
            self.last_remote_seq = remote_seq;
        }
        self.any_remote_seen = true;
    }

    /// Fold an incoming header's acknowledgements: exactly the in-flight
    /// packets the ack or its bitfield names are delivered; exactly the
    /// unacked in-flight packets the 32-packet window has passed beyond
    /// are dropped; both leave the in-flight set.
    pub fn process_ack(&mut self, ack: u16, ack_bitfield: u32) -> (r: (Vec<u16>, Vec<u16>))
        requires
            old(self).wf(),
        ensures
            final(self).wf(),
            final(self).sequence_number == old(self).sequence_number,
            final(self).last_remote_seq == old(self).last_remote_seq,
            final(self).any_remote_seen == old(self).any_remote_seen,
            final(self).received == old(self).received,
            r.0@.to_set() == ack_named(ack, ack_bitfield).intersect(old(self).outstanding@),
            r.1@.to_set() == old(self).outstanding@.difference(r.0@.to_set()).filter(
                |p: u16| wrap_diff_spec(p, ack) > 32,
            ),
            final(self).outstanding@ == old(self).outstanding@.difference(r.0@.to_set()).difference(
                r.1@.to_set(),
            ),
            forall|a: int, b: int| 0 <= a < b < r.0@.len() ==> r.0@[a] != r.0@[b],
            forall|a: int, b: int| 0 <= a < b < r.1@.len() ==> r.1@[a] != r.1@[b],
    {
        let mut delivered: Vec<u16> = Vec::new();
        let mut dropped: Vec<u16> = Vec::new();
        // the ack itself
        if self.outstanding.take(ack) {
            delivered.push(ack);
            proof {
                assert(delivered@[0] == ack);
                assert(delivered@.contains(ack));
            }
        }
        proof {
            assert(delivered@.to_set() =~= ack_named_prefix(ack, ack_bitfield, 0).intersect(
                old(self).outstanding@,
            )) by {
                assert(forall|q: u16|
                    ack_named_prefix(ack, ack_bitfield, 0).contains(q) <==> q == ack);
            }
            assert(self.outstanding@ =~= old(self).outstanding@.difference(delivered@.to_set()));
        }
        // the 32 packets before it, by bitfield
        let mut i: u32 = 0;
        while i < 32
            invariant
                i <= 32,
                self.wf(),
                self.sequence_number == old(self).sequence_number,
                self.last_remote_seq == old(self).last_remote_seq,
                self.any_remote_seen == old(self).any_remote_seen,
                self.received == old(self).received,
                delivered@.to_set() == ack_named_prefix(ack, ack_bitfield, i as int).intersect(
                    old(self).outstanding@,
                ),
                self.outstanding@ == old(self).outstanding@.difference(delivered@.to_set()),
                forall|a: int, b: int|
                    0 <= a < b < delivered@.len() ==> delivered@[a] != delivered@[b],
            decreases 32 - i,
        {
            let is_set = ((ack_bitfield >> i) & 1) == 1;
            let ghost del_pre = delivered@;
            let ghost out_pre = self.outstanding@;
            let ghost mut took = false;
            let ghost mut cand: u16 = 0;
            if is_set {
                let candidate = ack.wrapping_sub(i as u16).wrapping_sub(1);
                proof {
                    lemma_seq_back_steps(ack, i);
                    assert(candidate == seq_back(ack, i + 1));
                    cand = candidate;
                }
                let hit = self.outstanding.take(candidate);
                proof {
                    took = hit;
                }
                if hit {
                    delivered.push(candidate);
                    proof {
                        assert(!del_pre.contains(candidate)) by {
                            if del_pre.contains(candidate) {
                                assert(del_pre.to_set().contains(candidate));
                                assert(out_pre.contains(candidate));
                            }
                        }
                        assert forall|a: int, b: int|
                            0 <= a < b < delivered@.len() implies delivered@[a]
                            != delivered@[b] by {
                            if b == delivered@.len() - 1 {
                                assert(del_pre.contains(del_pre[a]));
                            }
                        }
                    }
                }
            }
            i = i + 1;
            proof {
                lemma_named_prefix_step(ack, ack_bitfield, i as int);
                if is_set {
                    assert(bit32(ack_bitfield, (i - 1) as u32));
                    assert(cand == seq_back(ack, i as int));
                } else {
                    assert(!bit32(ack_bitfield, (i - 1) as u32));
                }
                assert(delivered@.to_set() =~= ack_named_prefix(ack, ack_bitfield, i as int).intersect(
                    old(self).outstanding@,
                )) by {
                    assert forall|q: u16|
                        delivered@.to_set().contains(q) implies ack_named_prefix(
                        ack,
                        ack_bitfield,
                        i as int,
                    ).intersect(old(self).outstanding@).contains(q) by {
                        let a = choose|a: int| 0 <= a < delivered@.len() && delivered@[a] == q;
                        if a < del_pre.len() {
                            assert(del_pre[a] == q);
                            assert(del_pre.to_set().contains(q));
                            assert(ack_named_prefix(ack, ack_bitfield, i - 1).contains(q));
                        } else {
                            assert(is_set && took && q == cand);
                            assert(out_pre.contains(q));
                        }
                    }
                    assert forall|q: u16|
                        ack_named_prefix(ack, ack_bitfield, i as int).intersect(
                            old(self).outstanding@,
                        ).contains(q) implies delivered@.to_set().contains(q) by {
                        if ack_named_prefix(ack, ack_bitfield, i - 1).contains(q) {
                            assert(del_pre.to_set().contains(q));
                            let a = choose|a: int| 0 <= a < del_pre.len() && del_pre[a] == q;
                            assert(delivered@[a] == q);
                        } else {
                            // named by the new bit alone
                            assert(is_set && q == cand);
                            if took {
                                assert(delivered@.last() == q);
                            } else {
                                assert(!out_pre.contains(cand));
                                assert(del_pre.to_set().contains(q));
                                let a = choose|a: int|
                                    0 <= a < del_pre.len() && del_pre[a] == q;
                                assert(delivered@[a] == q);
                            }
                        }
                    }
                }
                assert(self.outstanding@ =~= old(self).outstanding@.difference(
                    delivered@.to_set(),
                ));
            }
        }
        proof {
            assert(delivered@.to_set() =~= ack_named(ack, ack_bitfield).intersect(
                old(self).outstanding@,
            )) by {
                assert(forall|q: u16|
                    ack_named(ack, ack_bitfield).contains(q) == ack_named_prefix(
                        ack,
                        ack_bitfield,
                        32,
                    ).contains(q));
            }
        }
        // everything the window passed beyond is dropped
        let mut survivors = KeySet::new();
        let mut j: usize = 0;
        let items_len = self.outstanding.len();
        let ghost out_mid = self.outstanding@;
        let ghost items = self.outstanding.items@;
        while j < items_len
            invariant
                j <= items_len,
                items_len == items.len(),
                self.outstanding.items@ == items,
                self.outstanding.wf(),
                survivors.wf(),
                items.to_set() == out_mid,
                forall|a: int, b: int| 0 <= a < b < items.len() ==> items[a] != items[b],
                survivors@ == items.take(j as int).to_set().filter(
                    |p: u16| !(wrap_diff_spec(p, ack) > 32),
                ),
                dropped@.to_set() == items.take(j as int).to_set().filter(
                    |p: u16| wrap_diff_spec(p, ack) > 32,
                ),
                forall|a: int, b: int| 0 <= a < b < dropped@.len() ==> dropped@[a] != dropped@[b],
                self.sequence_number == old(self).sequence_number,
                self.last_remote_seq == old(self).last_remote_seq,
                self.any_remote_seen == old(self).any_remote_seen,
                self.received == old(self).received,
            decreases items_len - j,
        {
            let p = self.outstanding.items[j];
            proof {
                assert(items.to_set().contains(p));
            }
            let ghost drop_pre = dropped@;
            let ghost surv_pre = survivors@;
            let diff = wrapping_diff(p, ack);
            if diff > 32 {
                dropped.push(p);
                proof {
                    assert(!drop_pre.contains(p)) by {
                        if drop_pre.contains(p) {
                            assert(drop_pre.to_set().contains(p));
                            assert(items.take(j as int).contains(p));
                            let a = choose|a: int|
                                0 <= a < j && #[trigger] items.take(j as int)[a] == p;
                            assert(items[a] == items[j as int]);
                        }
                    }
                    assert forall|a: int, b: int|
                        0 <= a < b < dropped@.len() implies dropped@[a] != dropped@[b] by {
                        if b == dropped@.len() - 1 {
                            assert(drop_pre.contains(drop_pre[a]));
                        }
                    }
                }
            } else {
                survivors.insert(p);
            }
            j = j + 1;
            proof {
                assert(items.take(j as int) =~= items.take(j - 1).push(p));
                assert(items.take(j as int).to_set() =~= items.take(j - 1).to_set().insert(p)) by {
                    assert forall|q: u16|
                        items.take(j as int).to_set().contains(q) <==> (items.take(
                            j - 1,
                        ).to_set().contains(q) || q == p) by {
                        if items.take(j as int).contains(q) {
                            let a = choose|a: int|
                                0 <= a < j && #[trigger] items.take(j as int)[a] == q;
                            if a < j - 1 {
                                assert(items.take(j - 1)[a] == q);
                            }
                        }
                        if items.take(j - 1).contains(q) {
                            let a = choose|a: int|
                                0 <= a < j - 1 && #[trigger] items.take(j - 1)[a] == q;
                            assert(items.take(j as int)[a] == q);
                        }
                        if q == p {
                            assert(items.take(j as int)[j - 1] == q);
                        }
                    }
                }
                assert(survivors@ =~= items.take(j as int).to_set().filter(
                    |q: u16| !(wrap_diff_spec(q, ack) > 32),
                ));
                assert(dropped@.to_set() =~= items.take(j as int).to_set().filter(
                    |q: u16| wrap_diff_spec(q, ack) > 32,
                )) by {
                    assert forall|q: u16|
                        dropped@.to_set().contains(q) implies items.take(
                        j as int,
                    ).to_set().filter(|q2: u16| wrap_diff_spec(q2, ack) > 32).contains(q) by {
                        let a = choose|a: int| 0 <= a < dropped@.len() && dropped@[a] == q;
                        if a < drop_pre.len() {
                            assert(drop_pre[a] == q);
                            assert(drop_pre.to_set().contains(q));
                        } else {
                            assert(diff > 32 && q == p);
                        }
                    }
                    assert forall|q: u16|
                        items.take(j as int).to_set().filter(
                            |q2: u16| wrap_diff_spec(q2, ack) > 32,
                        ).contains(q) implies dropped@.to_set().contains(q) by {
                        if items.take(j - 1).to_set().contains(q) {
                            assert(drop_pre.to_set().contains(q));
                            let a = choose|a: int| 0 <= a < drop_pre.len() && drop_pre[a] == q;
                            assert(dropped@[a] == q);
                        } else {
                            assert(q == p);
                            assert(wrap_diff_spec(p, ack) > 32);
                            assert(diff > 32);
                            assert(dropped@.last() == q);
                        }
                    }
                }
            }
        }
        let ghost survivors_final = survivors@;
        self.outstanding = survivors;
        proof {
            assert(items.take(items_len as int) =~= items);
            assert(dropped@.to_set() =~= old(self).outstanding@.difference(
                delivered@.to_set(),
            ).filter(|p: u16| wrap_diff_spec(p, ack) > 32));
            assert(self.outstanding@ =~= old(self).outstanding@.difference(
                delivered@.to_set(),
            ).difference(dropped@.to_set()));
        }
        (delivered, dropped)
    }
}

} // verus!
