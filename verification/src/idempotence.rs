//! Optimizing an optimized program changes nothing.

use vstd::prelude::*;
use crate::coalescing::{
    instr_settled, lemma_coalesce_invariant, lemma_coalesce_settled, settled, settled_at,
};
use crate::model::{
    coalesce, convert, convert_all, counter_gain, emitted, flush, is_multiply_loop,
    is_simple, lemma_convert_all, lemma_counter_gain_push, lemma_emitted_push,
    lemma_emitted_starts, lemma_net_shift_push, lemma_pending_push, net_shift, optimize, pending,
    rebased, scaled_body, Instr,
};

verus! {

/// Neither the instruction nor anything in its body is a multiply loop.
pub open spec fn instr_plain(i: Instr) -> bool
    decreases i,
{
    match i {
        Instr::Loop(body) => !is_multiply_loop(i) && plain(body),
        _ => true,
    }
}

/// A sequence on which multiply-loop conversion has nothing left to do: at
/// no depth does it hold a multiply loop.
pub open spec fn plain(s: Seq<Instr>) -> bool
    decreases s,
{
    forall|k: int| 0 <= k < s.len() ==> instr_plain(#[trigger] s[k])
}

/// In a settled sequence, a movement is pending after `k` instructions
/// exactly where the last of them is a movement, and all before it was
/// emitted as it stands.
proof fn lemma_settled_prefix(s: Seq<Instr>, k: int)
    requires
        settled(s),
        0 <= k <= s.len(),
    ensures
        pending(s.take(k)) == if k > 0 && s[k - 1] is Shift {
            s[k - 1]->Shift_0
        } else {
            0
        },
        emitted(s.take(k)) == if k > 0 && s[k - 1] is Shift {
            s.take(k - 1)
        } else {
            s.take(k)
        },
    decreases s, k,
{
    if k == 0 {
        assert(s.take(0) == Seq::<Instr>::empty());
    } else {
        lemma_settled_prefix(s, k - 1);
        let x = s[k - 1];
        let before = s.take(k - 1);
        let r = pending(before);
        assert(s.take(k) == before.push(x));
        lemma_pending_push(before, x);
        lemma_emitted_push(before, x);
        assert(settled_at(s, k - 1));
        assert(instr_settled(x));
        if k >= 2 {
            assert(settled_at(s, k - 2));
            assert(s.take(k - 1) == s.take(k - 2).push(s[k - 2]));
        }
        match x {
            Instr::Shift(d) => {
                assert(emitted(before) + Seq::<Instr>::empty() == emitted(before));
            },
            Instr::Loop(body) => {
                lemma_settled_fixed(body);
                if r != 0 {
                    assert(s.take(k - 2) + flush(r).push(x) == s.take(k));
                } else {
                    assert(before + flush(r).push(x) == s.take(k));
                }
            },
            _ => {
                assert(rebased(x, 0) == seq![x]);
                assert(before + seq![x] == s.take(k));
            },
        }
    }
}

/// Move coalescing leaves a settled sequence as it is.
pub proof fn lemma_settled_fixed(s: Seq<Instr>)
    requires
        settled(s),
    ensures
        coalesce(s) == s,
    decreases s, s.len() + 1,
{
    lemma_settled_prefix(s, s.len() as int);
    assert(s.take(s.len() as int) == s);
    if s.len() > 0 && s.last() is Shift {
        assert(settled_at(s, s.len() - 1));
        assert(s.take(s.len() - 1) + flush(s.last()->Shift_0) == s);
    } else {
        assert(s + flush(0) == s);
    }
}

/// The converted body of a multiply loop holds movements and
/// multiply-accumulates only.
proof fn lemma_scaled_body_flat(s: Seq<Instr>)
    ensures
        forall|k: int|
            0 <= k < scaled_body(s).len() ==> (#[trigger] scaled_body(s)[k] is Shift
                || scaled_body(s)[k] is AddMult),
    decreases s.len(),
{
    if s.len() > 0 {
        lemma_scaled_body_flat(s.drop_last());
    }
}

/// Conversion turns a body that is not simple into one that is not simple,
/// and leaves a simple one as it is.
proof fn lemma_convert_all_simple(s: Seq<Instr>)
    ensures
        is_simple(convert_all(s)) == is_simple(s),
        is_simple(s) ==> convert_all(s) == s,
{
    lemma_convert_all(s);
    if is_simple(s) {
        assert forall|k: int| 0 <= k < s.len() implies convert_all(s)[k] == s[k] by {
            assert(s[k] is Shift || s[k] is AddConst);
        }
        assert(convert_all(s) == s);
    } else {
        let k = choose|k: int| 0 <= k < s.len() && !(#[trigger] s[k] is Shift || s[k] is AddConst);
        assert(convert_all(s)[k] == convert(s[k]));
        assert(!(convert_all(s)[k] is Shift || convert_all(s)[k] is AddConst));
    }
}

/// What conversion gives holds no multiply loop.
pub proof fn lemma_convert_plain(i: Instr)
    ensures
        instr_plain(convert(i)),
    decreases i,
{
    match i {
        Instr::Loop(body) => {
            if is_multiply_loop(i) {
                let whole = scaled_body(body).push(Instr::Zero(0));
                lemma_scaled_body_flat(body);
                assert(whole[whole.len() - 1] is Zero);
                assert(!is_simple(whole));
                assert forall|k: int| 0 <= k < whole.len() implies instr_plain(
                    #[trigger] whole[k],
                ) by {
                    if k < whole.len() - 1 {
                        assert(whole[k] == scaled_body(body)[k]);
                    }
                }
            } else {
                lemma_convert_all_simple(body);
                lemma_convert_all_plain(body);
            }
        },
        _ => {},
    }
}

/// What conversion gives holds no multiply loop.
pub proof fn lemma_convert_all_plain(s: Seq<Instr>)
    ensures
        plain(convert_all(s)),
    decreases s,
{
    lemma_convert_all(s);
    assert forall|k: int| 0 <= k < convert_all(s).len() implies instr_plain(
        #[trigger] convert_all(s)[k],
    ) by {
        lemma_convert_plain(s[k]);
    }
}

/// Conversion leaves a sequence without multiply loops as it is.
pub proof fn lemma_plain_fixed(s: Seq<Instr>)
    requires
        plain(s),
    ensures
        convert_all(s) == s,
    decreases s,
{
    lemma_convert_all(s);
    assert forall|k: int| 0 <= k < s.len() implies convert_all(s)[k] == s[k] by {
        assert(instr_plain(s[k]));
        match s[k] {
            Instr::Loop(body) => {
                lemma_plain_fixed(body);
            },
            _ => {},
        }
    }
    assert(convert_all(s) == s);
}

/// Coalescing turns a body that is not simple into one that is not simple.
proof fn lemma_coalesce_simple(s: Seq<Instr>)
    requires
        is_simple(coalesce(s)),
    ensures
        is_simple(s),
{
    assert forall|k: int| 0 <= k < s.len() implies (#[trigger] s[k] is Shift
        || s[k] is AddConst) by {
        let before = s.take(k);
        let piece = rebased(s[k], pending(before));
        assert(s.take(k + 1) == before.push(s[k]));
        lemma_emitted_push(before, s[k]);
        lemma_emitted_starts(s, k + 1);
        if !(s[k] is Shift || s[k] is AddConst) {
            let j = emitted(before).len() + piece.len() - 1;
            assert(emitted(s.take(k + 1))[j] == piece[piece.len() - 1]);
            assert(coalesce(s)[j] is Shift || coalesce(s)[j] is AddConst);
        }
    }
}

/// On a simple body, coalescing emits the additions alone, each to the cell
/// it went to before.
proof fn lemma_simple_gain(s: Seq<Instr>)
    requires
        is_simple(s),
    ensures
        pending(s) == net_shift(s),
        net_shift(emitted(s)) == 0,
        counter_gain(emitted(s)) == counter_gain(s),
    decreases s.len(),
{
    if s.len() > 0 {
        let before = s.drop_last();
        assert forall|k: int| 0 <= k < before.len() implies (#[trigger] before[k] is Shift
            || before[k] is AddConst) by {
            assert(before[k] == s[k]);
        }
        lemma_simple_gain(before);
        let x = s[s.len() - 1];
        assert(s == before.push(x));
        lemma_emitted_push(before, x);
        lemma_pending_push(before, x);
        lemma_net_shift_push(before, x);
        lemma_counter_gain_push(before, x);
        match x {
            Instr::Shift(_) => {
                assert(emitted(before) + Seq::<Instr>::empty() == emitted(before));
            },
            Instr::AddConst(o, a) => {
                let n = Instr::AddConst(o + pending(before), a);
                assert(rebased(x, pending(before)) == seq![n]);
                assert(emitted(before) + seq![n] == emitted(before).push(n));
                lemma_net_shift_push(emitted(before), n);
                lemma_counter_gain_push(emitted(before), n);
            },
            _ => {},
        }
    }
}

/// Coalescing makes no multiply loop out of a loop that is none.
proof fn lemma_coalesce_multiply(body: Seq<Instr>)
    requires
        is_multiply_loop(Instr::Loop(coalesce(body))),
    ensures
        is_multiply_loop(Instr::Loop(body)),
{
    lemma_coalesce_simple(body);
    lemma_coalesce_invariant(body);
    lemma_simple_gain(body);
    let r = pending(body);
    if r != 0 {
        assert(emitted(body) + flush(r) == emitted(body).push(Instr::Shift(r)));
        lemma_counter_gain_push(emitted(body), Instr::Shift(r));
    } else {
        assert(emitted(body) + flush(r) == emitted(body));
    }
}

/// What coalescing emits on the way holds no multiply loop, if what it reads holds none.
proof fn lemma_emitted_plain(s: Seq<Instr>)
    requires
        plain(s),
    ensures
        plain(emitted(s)),
    decreases s, 0int,
{
    if s.len() > 0 {
        let before = s.drop_last();
        assert forall|k: int| 0 <= k < before.len() implies instr_plain(#[trigger] before[k]) by {
            assert(before[k] == s[k]);
        }
        lemma_emitted_plain(before);
        let piece = rebased(s.last(), pending(before));
        assert(instr_plain(s[s.len() - 1]));
        match s.last() {
            Instr::Loop(body) => {
                lemma_coalesce_plain(body);
                if is_multiply_loop(Instr::Loop(coalesce(body))) {
                    lemma_coalesce_multiply(body);
                }
                assert(instr_plain(Instr::Loop(coalesce(body))));
            },
            _ => {},
        }
        assert forall|k: int| 0 <= k < emitted(s).len() implies instr_plain(
            #[trigger] emitted(s)[k],
        ) by {
            if k < emitted(before).len() {
                assert(instr_plain(emitted(before)[k]));
            } else {
                assert(emitted(s)[k] == piece[k - emitted(before).len()]);
            }
        }
    }
}

/// Coalescing makes no multiply loop where there was none.
pub proof fn lemma_coalesce_plain(s: Seq<Instr>)
    requires
        plain(s),
    ensures
        plain(coalesce(s)),
    decreases s, 1int,
{
    lemma_emitted_plain(s);
    assert forall|k: int| 0 <= k < coalesce(s).len() implies instr_plain(
        #[trigger] coalesce(s)[k],
    ) by {
        if k < emitted(s).len() {
            assert(instr_plain(emitted(s)[k]));
        }
    }
}

/// Optimizer idempotence: the two passes, applied to what they gave, give
/// it back unchanged.
pub proof fn lemma_optimize_idempotent(s: Seq<Instr>)
    ensures
        optimize(optimize(s)) == optimize(s),
{
    let once = optimize(s);
    lemma_convert_all_plain(s);
    lemma_coalesce_plain(convert_all(s));
    lemma_plain_fixed(once);
    lemma_coalesce_settled(convert_all(s));
    lemma_settled_fixed(once);
}

} // verus!
