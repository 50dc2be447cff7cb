//! Engine-wide laws, stated over the spec functions the managers'
//! contracts use, and proved once here.

use vstd::prelude::*;

use crate::client_entity_manager::{ClientEntityManager, WireAction};
use crate::command_receiver::CommandReceiver;
use crate::diff_mask::{bytes_nand, bytes_or, lemma_bytes_nand_bits, lemma_bytes_or_bits, mask_bit};
use crate::entity_manager::EntityManager;
use crate::replica::ReplicaView;
use crate::sequence_buffer::SequenceBuffer;

verus! {

/// The sequence number `j` steps past `q` on the circle.
pub open spec fn wrap_add(q: u16, j: int) -> u16 {
    (((q + j) % 65536)) as u16
}

/// Whether some in-flight update snapshot of width `len` carries bit `i`
/// of this component.
pub open spec fn in_flight_bit(
    updates: Map<u16, Map<u16, Seq<u8>>>,
    ck: u16,
    i: int,
    len: nat,
) -> bool {
    exists|q: u16|
        #[trigger] updates.dom().contains(q) && updates[q].dom().contains(ck) && updates[q][ck].len()
            == len && mask_bit(updates[q][ck], i)
}

/// A visited packet of the drop walk that carries bit `i`.
pub open spec fn visited_clears(
    updates: Map<u16, Map<u16, Seq<u8>>>,
    ck: u16,
    q: u16,
    j: int,
    len: nat,
    i: int,
) -> bool {
    let x = wrap_add(q, j);
    &&& updates.dom().contains(x)
    &&& updates[x].dom().contains(ck)
    &&& updates[x][ck].len() == len
    &&& mask_bit(updates[x][ck], i)
}

/// Stepping the walk start shifts visit offsets by one.
proof fn lemma_wrap_add_shift(q: u16, j: int)
    requires
        0 <= j,
    ensures
        wrap_add(EntityManager::wrap_inc(q), j) == wrap_add(q, j + 1),
{
    if q == 0xffff {
        assert((0 + j) % 65536 == (0xffff + (j + 1)) % 65536) by (nonlinear_arith)
            requires
                0 <= j,
        ;
    } else {
        assert(((q + 1) + j) % 65536 == (q + (j + 1)) % 65536);
    }
}

/// A walk visit never lands back on its origin within one lap.
proof fn lemma_wrap_add_not_origin(p: u16, d: int)
    requires
        1 <= d <= 65535,
    ensures
        wrap_add(p, d) != p,
{
    assert((p + d) % 65536 != p) by (nonlinear_arith)
        requires
            0 <= p < 65536,
            1 <= d <= 65535,
    ;
}

/// What the drop walk does to each bit: it only clears bits, and every
/// bit it clears is carried by some packet it visited.
proof fn lemma_walk_bits(
    updates: Map<u16, Map<u16, Seq<u8>>>,
    ck: u16,
    q: u16,
    steps: nat,
    acc: Seq<u8>,
    i: int,
)
    ensures
        EntityManager::walk_from(updates, ck, q, steps, acc).len() == acc.len(),
        mask_bit(EntityManager::walk_from(updates, ck, q, steps, acc), i) ==> mask_bit(acc, i),
        (mask_bit(acc, i) && !mask_bit(EntityManager::walk_from(updates, ck, q, steps, acc), i))
            ==> exists|j: int| 0 <= j < steps && visited_clears(updates, ck, q, j, acc.len(), i),
    decreases steps,
{
    if steps == 0 {
    } else {
        let hit = updates.dom().contains(q) && updates[q].dom().contains(ck) && updates[q][ck].len()
            == acc.len();
        let acc2 = if hit {
            bytes_nand(acc, updates[q][ck])
        } else {
            acc
        };
        if hit {
            lemma_bytes_nand_bits(acc, updates[q][ck]);
        }
        let next = EntityManager::wrap_inc(q);
        lemma_walk_bits(updates, ck, next, (steps - 1) as nat, acc2, i);
        let result = EntityManager::walk_from(updates, ck, q, steps, acc);
        assert(result == EntityManager::walk_from(updates, ck, next, (steps - 1) as nat, acc2));
        if mask_bit(acc, i) && !mask_bit(result, i) {
            if !mask_bit(acc2, i) {
                // the visit at q itself cleared the bit
                assert(hit);
                assert(mask_bit(updates[q][ck], i));
                assert(wrap_add(q, 0) == q) by {
                    assert((q + 0) % 65536 == q);
                }
                assert(visited_clears(updates, ck, q, 0, acc.len(), i));
            } else {
                // a later visit cleared it: shift its offset by one
                let j2 = choose|j2: int|
                    0 <= j2 < steps - 1 && visited_clears(updates, ck, next, j2, acc2.len(), i);
                lemma_wrap_add_shift(q, j2);
                assert(acc2.len() == acc.len());
                assert(visited_clears(updates, ck, q, j2 + 1, acc.len(), i));
            }
        }
    }
}

/// Law: diff-mask conservation. For every bit of a component's mask
/// space, the union of the live mask and every same-width in-flight
/// snapshot is untouched by drop reconciliation: the dropped snapshot's
/// bits either survive the walk and fold into the live mask, or are
/// still carried by a later in-flight update. No dirty bit is lost, and
/// none is re-sent while an in-flight update already carries it.
pub proof fn lemma_diff_mask_conservation(
    masks: Map<u16, Seq<u8>>,
    updates: Map<u16, Map<u16, Seq<u8>>>,
    p: u16,
    last: u16,
    ck: u16,
    i: int,
)
    requires
        updates.dom().contains(p),
        updates[p].dom().contains(ck),
        masks.dom().contains(ck),
        masks[ck].len() == updates[p][ck].len(),
    ensures
        ({
            let folded = bytes_or(
                masks[ck],
                EntityManager::fold_back_mask(updates, ck, p, last),
            );
            let updates2 = updates.remove(p);
            (mask_bit(folded, i) || in_flight_bit(updates2, ck, i, masks[ck].len())) <==> (mask_bit(
                masks[ck],
                i,
            ) || in_flight_bit(updates, ck, i, masks[ck].len()))
        }),
{
    let len = masks[ck].len();
    let snap = updates[p][ck];
    let start = EntityManager::wrap_inc(p);
    let steps = EntityManager::walk_steps(p, last);
    let walked = EntityManager::fold_back_mask(updates, ck, p, last);
    lemma_walk_bits(updates, ck, start, steps, snap, i);
    assert(walked.len() == len);
    lemma_bytes_or_bits(masks[ck], walked);
    let folded = bytes_or(masks[ck], walked);
    let updates2 = updates.remove(p);
    // forward: every bit in the folded mask or a surviving snapshot was
    // dirty before
    if mask_bit(folded, i) {
        if mask_bit(walked, i) {
            assert(mask_bit(snap, i));
            assert(in_flight_bit(updates, ck, i, len)) by {
                assert(updates.dom().contains(p) && updates[p].dom().contains(ck)
                    && updates[p][ck].len() == len && mask_bit(updates[p][ck], i));
            }
        }
    }
    if in_flight_bit(updates2, ck, i, len) {
        let q = choose|q: u16|
            #[trigger] updates2.dom().contains(q) && updates2[q].dom().contains(ck)
                && updates2[q][ck].len() == len && mask_bit(updates2[q][ck], i);
        assert(updates.dom().contains(q) && updates[q].dom().contains(ck) && updates[q][ck].len()
            == len && mask_bit(updates[q][ck], i));
        assert(in_flight_bit(updates, ck, i, len));
    }
    // backward: no dirty bit is lost
    if mask_bit(masks[ck], i) {
        assert(mask_bit(folded, i));
    }
    if in_flight_bit(updates, ck, i, len) {
        let q = choose|q: u16|
            #[trigger] updates.dom().contains(q) && updates[q].dom().contains(ck)
                && updates[q][ck].len() == len && mask_bit(updates[q][ck], i);
        if q != p {
            assert(updates2.dom().contains(q) && updates2[q].dom().contains(ck)
                && updates2[q][ck].len() == len && mask_bit(updates2[q][ck], i));
            assert(in_flight_bit(updates2, ck, i, len));
        } else {
            // the dropped packet's own bit: it survives the walk or a
            // visited later packet still carries it
            assert(mask_bit(snap, i));
            if mask_bit(walked, i) {
                assert(mask_bit(folded, i));
            } else {
                let j = choose|j: int|
                    0 <= j < steps && visited_clears(updates, ck, start, j, len, i);
                lemma_wrap_add_shift(p, j);
                let x = wrap_add(start, j);
                assert(x == wrap_add(p, j + 1));
                assert(1 <= j + 1 <= 65535) by {
                    assert(steps <= 65535);
                }
                lemma_wrap_add_not_origin(p, j + 1);
                assert(x != p);
                assert(updates2.dom().contains(x) && updates2[x].dom().contains(ck)
                    && updates2[x][ck].len() == len && mask_bit(updates2[x][ck], i));
                assert(in_flight_bit(updates2, ck, i, len));
            }
        }
    }
}

/// Law: at-most-once effective delivery, on the ledger. Resolving a
/// packet — by delivery or by drop — removes its entry, so a duplicate
/// or late notification for the same packet finds nothing: nothing is
/// re-enqueued and no mask folds back twice. Requeue and fold happen
/// exactly on the first notification.
pub proof fn lemma_at_most_once_resolution(
    sent: Map<u16, Seq<crate::entity_action::ActionView>>,
    p: u16,
)
    ensures
        !sent.remove(p).dom().contains(p),
        forall|p2: u16|
            p2 != p ==> sent.remove(p).dom().contains(p2) == sent.dom().contains(p2),
{
}

/// Law: ordering. The action queue is first-in first-out: what a pop
/// removes is exactly the front, and putting it back restores the queue,
/// so an action enqueued earlier is written no later than one enqueued
/// after it.
pub proof fn lemma_pop_unpop_order(q: Seq<crate::entity_action::ActionView>, a: crate::entity_action::ActionView)
    requires
        q.len() > 0,
        a == q[0],
    ensures
        seq![a] + q.drop_first() == q,
{
    assert(seq![a] + q.drop_first() =~= q);
}

/// Law: key recycling. While any record owns a wire-local key, the
/// generator holds it non-free, every two live records hold distinct
/// keys, and a generated key is therefore never one a record still owns.
pub proof fn lemma_local_key_not_reused(m: EntityManager, e1: u16, e2: u16)
    requires
        m.wf(),
        m.entity_records@.dom().contains(e1),
        m.entity_records@.dom().contains(e2),
        e1 != e2,
    ensures
        !m.entity_generator.is_free(m.entity_records@[e1].local_key),
        m.entity_records@[e1].local_key != m.entity_records@[e2].local_key,
{
    assert(m.local_to_global_entity@.dom().contains(m.entity_records@[e1].local_key));
    if m.entity_records@[e1].local_key == m.entity_records@[e2].local_key {
        assert(m.local_to_global_entity@[m.entity_records@[e1].local_key] == e1);
        assert(m.local_to_global_entity@[m.entity_records@[e2].local_key] == e2);
    }
}

/// The component-key half of the same law.
pub proof fn lemma_component_key_not_reused(m: EntityManager, c1: u16, c2: u16)
    requires
        m.wf(),
        m.component_records@.dom().contains(c1),
        m.component_records@.dom().contains(c2),
        c1 != c2,
    ensures
        !m.component_key_generator.is_free(m.component_records@[c1].local_key),
        m.component_records@[c1].local_key != m.component_records@[c2].local_key,
{
    assert(m.local_to_global_component@.dom().contains(m.component_records@[c1].local_key));
    if m.component_records@[c1].local_key == m.component_records@[c2].local_key {
        assert(m.local_to_global_component@[m.component_records@[c1].local_key] == c1);
        assert(m.local_to_global_component@[m.component_records@[c2].local_key] == c2);
    }
}

/// Law: sequence-buffer lookup. An insert is visible to an
/// exact-sequence lookup until a later insert lands in the same slot;
/// an insert into another slot leaves it untouched.
pub proof fn lemma_sequence_buffer_eviction<T>(
    b0: SequenceBuffer<T>,
    b1: SequenceBuffer<T>,
    b2: SequenceBuffer<T>,
    s: u16,
    v: T,
    s2: u16,
    v2: T,
)
    requires
        b1.capacity() == b0.capacity(),
        b1.spec_get(s) == Some(v),
        forall|x: u16|
            x != s ==> b1.spec_get(x) == (if b0.slot_of(x) == b0.slot_of(s) {
                Option::<T>::None
            } else {
                b0.spec_get(x)
            }),
        b2.capacity() == b1.capacity(),
        b2.spec_get(s2) == Some(v2),
        forall|x: u16|
            x != s2 ==> b2.spec_get(x) == (if b1.slot_of(x) == b1.slot_of(s2) {
                Option::<T>::None
            } else {
                b1.spec_get(x)
            }),
    ensures
        s2 == s ==> b2.spec_get(s) == Some(v2),
        s2 != s && b1.slot_of(s2) == b1.slot_of(s) ==> b2.spec_get(s).is_none(),
        s2 != s && b1.slot_of(s2) != b1.slot_of(s) ==> b2.spec_get(s) == Some(v),
{
}

/// Law: pawn correctness. When an authoritative update's result agrees
/// with the snapshot predicted for that packet's tick, the command
/// receiver is untouched: no command is queued for replay.
pub proof fn lemma_pawn_agreement_no_replay(
    pre: ClientEntityManager,
    pre_r: CommandReceiver,
    local_key: u16,
    mask: Seq<u8>,
    payload: Seq<u8>,
    post: ClientEntityManager,
    post_r: CommandReceiver,
    packet_tick: u16,
    manifest: Map<u16, u8>,
)
    requires
        ClientEntityManager::apply_rel(
            pre,
            pre_r,
            WireAction::Update { local_key, mask, payload },
            post,
            post_r,
            packet_tick,
            manifest,
        ),
        pre.entities().dom().contains(local_key),
        mask.len() <= 255,
        crate::world::masked_len_fits(pre.entities()[local_key].properties, mask, payload),
        pre.pawn_history@.dom().contains(local_key),
        pre.pawn_history@[local_key].spec_get(packet_tick) matches Some(h) && h@ == (ReplicaView {
            kind: pre.entities()[local_key].kind,
            properties: crate::replica::apply_masked(
                pre.entities()[local_key].properties,
                mask,
                payload,
                0,
            ),
        }),
    ensures
        post_r == pre_r,
{
}

} // verus!
