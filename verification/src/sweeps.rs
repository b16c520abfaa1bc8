//! What passes over a simple body do to the tape, in closed form.
//!
//! A simple body holds movements and additions only, so a pass adds a fixed
//! amount to each cell it names, and `k` passes add `k` times as much.

use vstd::prelude::*;
use vstd::arithmetic::div_mod::lemma_add_mod_noop_right;
use crate::machine::{address_fault, grown, wrap};
use crate::model::{
    counter_gain, is_simple, net_shift, Instr,
};

verus! {

/// The tape with `v` added to the cell at `at`, grown to hold that cell.
pub open spec fn poked(t: Seq<u8>, at: int, v: int) -> Seq<u8> {
    grown(t, at).update(at, wrap(grown(t, at)[at] + v))
}

/// Every address that a pass over the body resolves, started with the
/// pointer at `p`, can be resolved.
pub open spec fn clear(body: Seq<Instr>, p: int) -> bool
    decreases body.len(),
{
    if body.len() == 0 {
        true
    } else {
        let q = p + net_shift(body.drop_last());
        &&& clear(body.drop_last(), p)
        &&& match body.last() {
            Instr::Shift(d) => address_fault(q + d) is None,
            Instr::AddConst(o, _) => address_fault(q + o) is None,
            _ => true,
        }
    }
}

/// The tape after `k` passes over a simple body, started with the pointer at `p`.
pub open spec fn swept(body: Seq<Instr>, t: Seq<u8>, p: int, k: int) -> Seq<u8>
    decreases body.len(),
{
    if body.len() == 0 {
        t
    } else {
        let before = swept(body.drop_last(), t, p, k);
        let q = p + net_shift(body.drop_last());
        match body.last() {
            Instr::Shift(d) => grown(before, q + d),
            Instr::AddConst(o, a) => poked(before, q + o, k * a),
            _ => before,
        }
    }
}

/// The tape after `k` passes over a simple body that leave the cell at `p`,
/// where the passes started, as it was.
pub open spec fn skimmed(body: Seq<Instr>, t: Seq<u8>, p: int, k: int) -> Seq<u8>
    decreases body.len(),
{
    if body.len() == 0 {
        t
    } else {
        let before = skimmed(body.drop_last(), t, p, k);
        let q = p + net_shift(body.drop_last());
        match body.last() {
            Instr::Shift(d) => grown(before, q + d),
            Instr::AddConst(o, a) => if q + o == p {
                before
            } else {
                poked(before, q + o, k * a)
            },
            _ => before,
        }
    }
}

/// A byte wrapped is itself.
pub proof fn lemma_wrap_byte(v: u8)
    ensures
        wrap(v as int) == v,
{
}

/// Wrapping on the way changes nothing.
pub proof fn lemma_wrap_add(u: int, v: int)
    ensures
        wrap(wrap(u) + v) == wrap(u + v),
{
    lemma_add_mod_noop_right(v, u, 256);
}

/// Growing a tape twice comes to the same in either order.
pub proof fn lemma_grown_grown(t: Seq<u8>, x: int, y: int)
    requires
        0 <= x,
        0 <= y,
    ensures
        grown(grown(t, x), y) == grown(grown(t, y), x),
{
}

/// Growing a tape and adding to a cell come to the same in either order.
pub proof fn lemma_poked_grown(t: Seq<u8>, x: int, y: int, v: int)
    requires
        0 <= x,
        0 <= y,
    ensures
        poked(grown(t, x), y, v) == grown(poked(t, y, v), x),
{
}

/// Adding to two cells, or twice to one, comes to the same in either order.
pub proof fn lemma_poked_poked(t: Seq<u8>, x: int, u: int, y: int, v: int)
    requires
        0 <= x,
        0 <= y,
    ensures
        poked(poked(t, x, u), y, v) == poked(poked(t, y, v), x, u),
{
    if x == y {
        let c = grown(t, x)[x] as int;
        lemma_wrap_add(c + u, v);
        lemma_wrap_add(c + v, u);
    }
}

/// Adding to a cell twice is adding the sum once.
pub proof fn lemma_poked_twice(t: Seq<u8>, x: int, u: int, v: int)
    requires
        0 <= x,
    ensures
        poked(poked(t, x, u), x, v) == poked(t, x, u + v),
{
    let c = grown(t, x)[x] as int;
    lemma_wrap_add(c + u, v);
}

/// A prefix of a simple body is simple, and clear where the body is.
pub proof fn lemma_simple_prefix(body: Seq<Instr>)
    requires
        is_simple(body),
        body.len() > 0,
    ensures
        is_simple(body.drop_last()),
        body.last() is Shift || body.last() is AddConst,
{
    let before = body.drop_last();
    assert forall|k: int| 0 <= k < before.len() implies (#[trigger] before[k] is Shift
        || before[k] is AddConst) by {
        assert(before[k] == body[k]);
    }
    assert(body.last() == body[body.len() - 1]);
}

/// The passes that leave the counter cell alone differ from the passes
/// that do not in that cell alone, by `k` times what one pass adds to it.
pub proof fn lemma_swept_skimmed(body: Seq<Instr>, t: Seq<u8>, p: int, k: int)
    requires
        0 <= p < t.len(),
        clear(body, p),
    ensures
        skimmed(body, t, p, k).len() >= t.len(),
        skimmed(body, t, p, k)[p] == t[p],
        swept(body, t, p, k) == skimmed(body, t, p, k).update(
            p,
            wrap(t[p] + k * counter_gain(body)),
        ),
    decreases body.len(),
{
    if body.len() == 0 {
        lemma_wrap_byte(t[p]);
        assert(t.update(p, t[p]) == t);
    } else {
        let before = body.drop_last();
        lemma_swept_skimmed(before, t, p, k);
        let x = skimmed(before, t, p, k);
        let g0 = counter_gain(before);
        let v0 = wrap(t[p] + k * g0);
        let q = p + net_shift(before);
        match body.last() {
            Instr::Shift(d) => {
                assert(grown(x.update(p, v0), q + d) == grown(x, q + d).update(p, v0));
            },
            Instr::AddConst(o, a) => {
                let y = q + o;
                if y == p {
                    lemma_wrap_add(t[p] + k * g0, k * a);
                    assert(k * g0 + k * a == k * (g0 + a)) by (nonlinear_arith);
                    assert(poked(x.update(p, v0), p, k * a) == x.update(
                        p,
                        wrap(t[p] + k * (g0 + a)),
                    ));
                } else {
                    assert(poked(x.update(p, v0), y, k * a) == poked(x, y, k * a).update(p, v0));
                }
            },
            _ => {},
        }
    }
}

/// Growing the tape, or adding to a cell, before the passes or after them
/// comes to the same.
pub proof fn lemma_swept_commutes(body: Seq<Instr>, t: Seq<u8>, p: int, k: int, y: int, v: int)
    requires
        clear(body, p),
        0 <= y,
    ensures
        swept(body, grown(t, y), p, k) == grown(swept(body, t, p, k), y),
        swept(body, poked(t, y, v), p, k) == poked(swept(body, t, p, k), y, v),
    decreases body.len(),
{
    if body.len() > 0 {
        let before = body.drop_last();
        lemma_swept_commutes(before, t, p, k, y, v);
        let z = swept(before, t, p, k);
        let q = p + net_shift(before);
        match body.last() {
            Instr::Shift(d) => {
                lemma_grown_grown(z, y, q + d);
                lemma_poked_grown(z, q + d, y, v);
            },
            Instr::AddConst(o, a) => {
                lemma_poked_grown(z, y, q + o, k * a);
                lemma_poked_poked(z, y, v, q + o, k * a);
            },
            _ => {},
        }
    }
}

/// One pass and then `k` passes are `k + 1` passes.
pub proof fn lemma_swept_again(body: Seq<Instr>, t: Seq<u8>, p: int, k: int)
    requires
        clear(body, p),
    ensures
        swept(body, swept(body, t, p, 1), p, k) == swept(body, t, p, k + 1),
    decreases body.len(),
{
    if body.len() > 0 {
        let before = body.drop_last();
        let q = p + net_shift(before);
        let once = swept(before, t, p, 1);
        lemma_swept_again(before, t, p, k);
        match body.last() {
            Instr::Shift(d) => {
                lemma_swept_commutes(before, once, p, k, q + d, 0);
                let z = swept(before, once, p, k);
                assert(grown(grown(z, q + d), q + d) == grown(z, q + d));
            },
            Instr::AddConst(o, a) => {
                lemma_swept_commutes(before, once, p, k, q + o, 1 * a);
                let z = swept(before, once, p, k);
                lemma_poked_twice(z, q + o, 1 * a, k * a);
                assert(1 * a + k * a == (k + 1) * a) by (nonlinear_arith);
            },
            _ => {},
        }
    }
}

/// A counter that loses one in each pass is at zero after as many passes as it held.
pub proof fn lemma_counter_runs_out(c: int, gain: int)
    requires
        gain % 256 == 255,
    ensures
        wrap(c + c * gain) == 0,
        0 < c < 256 ==> wrap(c + 1 * gain) == c - 1,
{
    vstd::arithmetic::div_mod::lemma_fundamental_div_mod(gain, 256);
    let m = gain / 256;
    assert(c + c * gain == (c * (m + 1)) * 256) by (nonlinear_arith)
        requires
            gain == 256 * m + 255,
    ;
    vstd::arithmetic::div_mod::lemma_mod_multiples_basic(c * (m + 1), 256);
    if 0 < c < 256 {
        lemma_add_mod_noop_right(c, gain, 256);
    }
}

} // verus!
