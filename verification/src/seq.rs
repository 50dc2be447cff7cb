//! Wrap-around arithmetic on 16-bit sequence numbers.
//!
//! Packet indices and host ticks are `u16` counters that wrap. Two sequence
//! numbers compare by their wrapping difference: the unique distance in
//! `[-32768, 32767]` that carries one onto the other modulo 65536.

use vstd::prelude::*;

verus! {

/// The signed distance from `a` to `b` on the 16-bit circle: the unique
/// `d` in `[-32768, 32767]` with `(a + d) % 65536 == b`.
pub open spec fn wrap_diff_spec(a: u16, b: u16) -> int {
    let d = (b - a) % 65536;
    if d >= 32768 {
        d - 65536
    } else {
        d
    }
}

/// `b` is strictly ahead of `a` on the circle.
pub open spec fn seq_gt_spec(b: u16, a: u16) -> bool {
    wrap_diff_spec(a, b) > 0
}

/// The wrapping difference carries `a` onto `b` modulo 65536.
pub proof fn lemma_wrap_diff_round_trip(a: u16, b: u16)
    ensures
        (a + wrap_diff_spec(a, b)) % 65536 == b,
        -32768 <= wrap_diff_spec(a, b) <= 32767,
{
    let ai = a as int;
    let bi = b as int;
    let d = (bi - ai) % 65536;
    assert((ai + d) % 65536 == bi) by {
        assert(d == (bi - ai) - 65536 * ((bi - ai) / 65536));
        assert(0 <= bi < 65536 ==> bi % 65536 == bi);
        assert((ai + d) % 65536 == bi % 65536) by (nonlinear_arith)
            requires
                d == (bi - ai) - 65536 * ((bi - ai) / 65536),
        ;
    }
    if d >= 32768 {
        assert((ai + (d - 65536)) % 65536 == bi) by {
            assert((ai + d - 65536) % 65536 == (ai + d) % 65536) by (nonlinear_arith);
        }
    }
}

/// Signed distance from `a` to `b`, wrapping.
pub fn wrapping_diff(a: u16, b: u16) -> (d: i16)
    ensures
        d as int == wrap_diff_spec(a, b),
{
    let w: u16 = b.wrapping_sub(a);
    if w < 32768 {
        w as i16
    } else {
        (w as i32 - 65536) as i16
    }
}

/// Whether sequence number `b` is more recent than `a`.
pub fn sequence_greater_than(b: u16, a: u16) -> (r: bool)
    ensures
        r == seq_gt_spec(b, a),
{
    let w: u16 = b.wrapping_sub(a);
    w >= 1 && w < 32768
}

/// Stepping a wrapping counter once shortens the distance to its target
/// by one.
pub proof fn lemma_tick_dist_dec(t: u16, stop: u16)
    requires
        t != stop,
    ensures
        (stop - t) % 65536 >= 1,
        (stop - (if t == 0xffff {
            0int
        } else {
            t + 1
        })) % 65536 == (stop - t) % 65536 - 1,
{
    let d = (stop - t) % 65536;
    assert(0 <= d < 65536);
    assert(d != 0) by {
        if d == 0 {
            assert(stop - t == 0) by (nonlinear_arith)
                requires
                    (stop - t) % 65536 == 0,
                    -65535 <= stop - t <= 65535,
            ;
        }
    }
    if t == 0xffff {
        assert((stop - 0) % 65536 == (stop - 0xffff) % 65536 - 1) by (nonlinear_arith)
            requires
                (stop - 0xffff) % 65536 != 0,
        ;
    } else {
        assert((stop - (t + 1)) % 65536 == (stop - t) % 65536 - 1) by (nonlinear_arith)
            requires
                (stop - t) % 65536 != 0,
        ;
    }
}

} // verus!
