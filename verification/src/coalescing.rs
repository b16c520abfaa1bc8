//! What holds of every sequence that move coalescing gives.

use vstd::prelude::*;
use crate::model::{
    coalesce, emitted, flush, lemma_net_shift_push, net_shift, pending, rebased, Instr,
};

verus! {

/// No movement at `k` is followed by another movement.
pub open spec fn apart_at(s: Seq<Instr>, k: int) -> bool {
    !(s[k] is Shift && k + 1 < s.len() && s[k + 1] is Shift)
}

/// In the body of this instruction, at any depth, no two movements are neighbours.
pub open spec fn instr_apart(i: Instr) -> bool
    decreases i,
{
    match i {
        Instr::Loop(body) => apart(body),
        _ => true,
    }
}

/// At no depth does the sequence hold two movements that are neighbours.
pub open spec fn apart(s: Seq<Instr>) -> bool
    decreases s,
{
    &&& forall|k: int| 0 <= k < s.len() ==> instr_apart(#[trigger] s[k])
    &&& forall|k: int| 0 <= k < s.len() ==> #[trigger] apart_at(s, k)
}

/// A movement at `k` is not zero, and it stands at the end or before a loop.
pub open spec fn settled_at(s: Seq<Instr>, k: int) -> bool {
    s[k] is Shift ==> s[k]->Shift_0 != 0 && (k + 1 == s.len() || s[k + 1] is Loop)
}

/// A movement at `k` is not zero, and it stands before a loop.
pub open spec fn led_at(s: Seq<Instr>, k: int) -> bool {
    s[k] is Shift ==> s[k]->Shift_0 != 0 && k + 1 < s.len() && s[k + 1] is Loop
}

/// The body of this instruction is settled.
pub open spec fn instr_settled(i: Instr) -> bool
    decreases i,
{
    match i {
        Instr::Loop(body) => settled(body),
        _ => true,
    }
}

/// A sequence on which move coalescing has nothing left to do: at every
/// depth, each movement is not zero and stands at the end of its sequence or
/// before a loop.
pub open spec fn settled(s: Seq<Instr>) -> bool
    decreases s,
{
    &&& forall|k: int| 0 <= k < s.len() ==> instr_settled(#[trigger] s[k])
    &&& forall|k: int| 0 <= k < s.len() ==> #[trigger] settled_at(s, k)
}

/// A settled sequence that does not end in a movement.
pub open spec fn led(s: Seq<Instr>) -> bool {
    &&& forall|k: int| 0 <= k < s.len() ==> instr_settled(#[trigger] s[k])
    &&& forall|k: int| 0 <= k < s.len() ==> #[trigger] led_at(s, k)
}

/// Two sequences that are settled and do not end in a movement make one
/// such sequence.
proof fn lemma_led_append(a: Seq<Instr>, b: Seq<Instr>)
    requires
        led(a),
        led(b),
    ensures
        led(a + b),
{
    let c = a + b;
    assert forall|k: int| 0 <= k < c.len() implies instr_settled(#[trigger] c[k]) by {
        if k < a.len() {
            assert(instr_settled(a[k]));
        } else {
            assert(instr_settled(b[k - a.len()]));
        }
    }
    assert forall|k: int| 0 <= k < c.len() implies #[trigger] led_at(c, k) by {
        if k < a.len() {
            assert(led_at(a, k));
        } else {
            assert(led_at(b, k - a.len()));
            if c[k] is Shift {
                assert(c[k + 1] == b[k - a.len() + 1]);
            }
        }
    }
}

/// A pending movement made real at the end of such a sequence leaves it settled.
proof fn lemma_led_settles(a: Seq<Instr>, r: int)
    requires
        led(a),
    ensures
        settled(a + flush(r)),
{
    let c = a + flush(r);
    assert forall|k: int| 0 <= k < c.len() implies instr_settled(#[trigger] c[k]) by {
        if k < a.len() {
            assert(instr_settled(a[k]));
        }
    }
    assert forall|k: int| 0 <= k < c.len() implies #[trigger] settled_at(c, k) by {
        if k < a.len() {
            assert(led_at(a, k));
            if a[k] is Shift {
                assert(c[k + 1] == a[k + 1]);
            }
        }
    }
}

/// What coalescing has emitted on the way is settled and does not end in a movement.
proof fn lemma_emitted_led(s: Seq<Instr>)
    ensures
        led(emitted(s)),
    decreases s, 0int,
{
    if s.len() > 0 {
        lemma_emitted_led(s.drop_last());
        let r = pending(s.drop_last());
        let piece = rebased(s.last(), r);
        match s.last() {
            Instr::Loop(body) => {
                lemma_coalesce_settled(body);
                assert(piece == flush(r).push(Instr::Loop(coalesce(body))));
                assert forall|k: int| 0 <= k < piece.len() implies instr_settled(
                    #[trigger] piece[k],
                ) by {}
                assert forall|k: int| 0 <= k < piece.len() implies #[trigger] led_at(piece, k) by {}
            },
            _ => {
                assert forall|k: int| 0 <= k < piece.len() implies instr_settled(
                    #[trigger] piece[k],
                ) by {}
                assert forall|k: int| 0 <= k < piece.len() implies #[trigger] led_at(piece, k) by {}
            },
        }
        lemma_led_append(emitted(s.drop_last()), piece);
    }
}

/// Move coalescing leaves nothing for itself to do.
pub proof fn lemma_coalesce_settled(s: Seq<Instr>)
    ensures
        settled(coalesce(s)),
    decreases s, 1int,
{
    lemma_emitted_led(s);
    lemma_led_settles(emitted(s), pending(s));
}

/// In a settled sequence no two movements are neighbours, at any depth.
pub proof fn lemma_settled_apart(s: Seq<Instr>)
    requires
        settled(s),
    ensures
        apart(s),
    decreases s,
{
    assert forall|k: int| 0 <= k < s.len() implies instr_apart(#[trigger] s[k]) by {
        assert(instr_settled(s[k]));
        match s[k] {
            Instr::Loop(body) => {
                lemma_settled_apart(body);
            },
            _ => {},
        }
    }
    assert forall|k: int| 0 <= k < s.len() implies #[trigger] apart_at(s, k) by {
        assert(settled_at(s, k));
    }
}

/// The movements that stand directly in two sequences add up.
pub proof fn lemma_net_shift_append(a: Seq<Instr>, b: Seq<Instr>)
    ensures
        net_shift(a + b) == net_shift(a) + net_shift(b),
    decreases b.len(),
{
    if b.len() == 0 {
        assert(a + b == a);
    } else {
        lemma_net_shift_append(a, b.drop_last());
        assert((a + b).drop_last() == a + b.drop_last());
    }
}

/// What was emitted and what is pending add up to the movement so far.
proof fn lemma_emitted_displacement(s: Seq<Instr>)
    ensures
        net_shift(emitted(s)) + pending(s) == net_shift(s),
    decreases s.len(),
{
    if s.len() > 0 {
        let before = s.drop_last();
        let r = pending(before);
        lemma_emitted_displacement(before);
        lemma_net_shift_append(emitted(before), rebased(s.last(), r));
        match s.last() {
            Instr::Loop(body) => {
                let inner = Instr::Loop(coalesce(body));
                lemma_net_shift_push(flush(r), inner);
                if r != 0 {
                    lemma_net_shift_push(Seq::empty(), Instr::Shift(r));
                    assert(flush(r) == Seq::<Instr>::empty().push(Instr::Shift(r)));
                }
            },
            Instr::Shift(_) => {},
            _ => {
                let piece = rebased(s.last(), r);
                lemma_net_shift_push(Seq::empty(), piece[0]);
                assert(piece == Seq::<Instr>::empty().push(piece[0]));
            },
        }
    }
}

/// The move-coalescing invariant: after coalescing, no sequence at any depth
/// holds two movements side by side, and the movements that stand directly
/// in the coalesced sequence add up to those of the sequence it was made from.
pub proof fn lemma_coalesce_invariant(s: Seq<Instr>)
    ensures
        apart(coalesce(s)),
        net_shift(coalesce(s)) == net_shift(s),
{
    lemma_coalesce_settled(s);
    lemma_settled_apart(coalesce(s));
    lemma_emitted_displacement(s);
    lemma_net_shift_append(emitted(s), flush(pending(s)));
    if pending(s) != 0 {
        lemma_net_shift_push(Seq::empty(), Instr::Shift(pending(s)));
        assert(flush(pending(s)) == Seq::<Instr>::empty().push(Instr::Shift(pending(s))));
    }
}

} // verus!
