//! How large the numbers in a tree can get: no larger than the text that the
//! tree was read from is long, before the passes and after them.

use vstd::prelude::*;
use crate::anchoring::{instr_primal, lemma_parsed_primal, lemma_primal_push, primal};
use crate::model::{
    coalesce, convert, convert_all, emitted, fits, flush, instr_fits, is_multiply_loop,
    is_simple, lemma_emitted_push, lemma_lower_all_push, lemma_net_shift_push,
    lemma_pending_push, lemma_scaled_body_push, lower, lower_all, net_shift, optimizable,
    pending, rebased, scaled, scaled_body, Instr,
};
use crate::sweeps::lemma_simple_prefix;
use crate::syntax::{added, commands, fed, parsed, read, shifted, Tree};

verus! {

/// The size of a number, whatever its sign.
pub open spec fn size(x: int) -> int {
    if x < 0 {
        -x
    } else {
        x
    }
}

/// The sizes of the movements and amounts of an instruction, added up.
pub open spec fn instr_weight(i: Instr) -> int
    decreases i,
{
    match i {
        Instr::Loop(body) => weight(body),
        Instr::Shift(d) => size(d),
        Instr::AddConst(_, a) => size(a),
        _ => 0,
    }
}

/// The sizes of the movements and amounts of a sequence, at every depth, added up.
pub open spec fn weight(s: Seq<Instr>) -> int
    decreases s,
{
    if s.len() == 0 {
        0
    } else {
        weight(s.drop_last()) + instr_weight(s.last())
    }
}

/// The weights of all the sequences that the reader holds, added up.
pub open spec fn load(frames: Seq<Seq<Tree>>) -> int
    decreases frames.len(),
{
    if frames.len() == 0 {
        0
    } else {
        load(frames.drop_last()) + weight(lower_all(frames.last()))
    }
}

/// The weight of a sequence with one more instruction.
pub proof fn lemma_weight_push(s: Seq<Instr>, i: Instr)
    ensures
        weight(s.push(i)) == weight(s) + instr_weight(i),
{
    assert(s.push(i).drop_last() == s);
}

/// The load of a stack with one more sequence.
proof fn lemma_load_push(frames: Seq<Seq<Tree>>, frame: Seq<Tree>)
    ensures
        load(frames.push(frame)) == load(frames) + weight(lower_all(frame)),
{
    assert(frames.push(frame).drop_last() == frames);
}

/// No weight is below zero, and no movement gathered is larger than the weight.
pub proof fn lemma_weight_bounds(s: Seq<Instr>)
    ensures
        0 <= weight(s),
        size(net_shift(s)) <= weight(s),
        size(pending(s)) <= weight(s),
    decreases s,
{
    if s.len() > 0 {
        lemma_weight_bounds(s.drop_last());
        lemma_instr_weight_bounds(s.last());
    }
}

/// No weight is below zero.
pub proof fn lemma_instr_weight_bounds(i: Instr)
    ensures
        0 <= instr_weight(i),
    decreases i,
{
    match i {
        Instr::Loop(body) => {
            lemma_weight_bounds(body);
        },
        _ => {},
    }
}

/// A movement that joins a sequence adds at most one to its weight.
proof fn lemma_shifted_weight(frame: Seq<Tree>, by: int)
    requires
        -1 <= by <= 1,
    ensures
        weight(lower_all(shifted(frame, by))) <= weight(lower_all(frame)) + 1,
{
    if frame.len() > 0 && frame.last() is Shift {
        let n = Tree::Shift(frame.last()->Shift_0 + by);
        let before = frame.drop_last();
        assert(frame == before.push(frame.last()));
        assert(shifted(frame, by) == before.push(n));
        lemma_lower_all_push(before, frame.last());
        lemma_lower_all_push(before, n);
        lemma_weight_push(lower_all(before), lower(frame.last()));
        lemma_weight_push(lower_all(before), lower(n));
    } else {
        let n = Tree::Shift(by);
        lemma_lower_all_push(frame, n);
        lemma_weight_push(lower_all(frame), lower(n));
    }
}

/// An addition that joins a sequence adds at most one to its weight.
proof fn lemma_added_weight(frame: Seq<Tree>, by: int)
    requires
        -1 <= by <= 1,
    ensures
        weight(lower_all(added(frame, by))) <= weight(lower_all(frame)) + 1,
{
    if frame.len() > 0 && frame.last() is Arith {
        let n = Tree::Arith(frame.last()->Arith_0 + by);
        let before = frame.drop_last();
        assert(frame == before.push(frame.last()));
        assert(added(frame, by) == before.push(n));
        lemma_lower_all_push(before, frame.last());
        lemma_lower_all_push(before, n);
        lemma_weight_push(lower_all(before), lower(frame.last()));
        lemma_weight_push(lower_all(before), lower(n));
    } else {
        let n = Tree::Arith(by);
        lemma_lower_all_push(frame, n);
        lemma_weight_push(lower_all(frame), lower(n));
    }
}

/// One more character adds at most one to the load.
proof fn lemma_fed_load(frames: Seq<Seq<Tree>>, c: char)
    requires
        frames.len() >= 1,
        fed(frames, c) is Ok,
    ensures
        load(fed(frames, c)->Ok_0) <= load(frames) + 1,
{
    let next = fed(frames, c)->Ok_0;
    let top = frames.last();
    let below = frames.drop_last();
    assert(frames == below.push(top));
    lemma_load_push(below, top);
    if c == '[' {
        lemma_load_push(frames, Seq::empty());
    } else if c == ']' {
        let outer = below.last();
        let rest = below.drop_last();
        let joined = outer.push(Tree::Loop(top));
        assert(below == rest.push(outer));
        lemma_load_push(rest, outer);
        assert(next == rest.push(joined));
        lemma_load_push(rest, joined);
        lemma_lower_all_push(outer, Tree::Loop(top));
        lemma_weight_push(lower_all(outer), lower(Tree::Loop(top)));
    } else {
        let changed = next.last();
        assert(next == below.push(changed));
        lemma_load_push(below, changed);
        if c == '>' {
            lemma_shifted_weight(top, 1);
        } else if c == '<' {
            lemma_shifted_weight(top, -1);
        } else if c == '+' {
            lemma_added_weight(top, 1);
        } else if c == '-' {
            lemma_added_weight(top, -1);
        } else if c == '.' {
            lemma_lower_all_push(top, Tree::Output);
            lemma_weight_push(lower_all(top), lower(Tree::Output));
        } else {
            lemma_lower_all_push(top, Tree::Input);
            lemma_weight_push(lower_all(top), lower(Tree::Input));
        }
    }
}

/// What the reader holds weighs no more than the text is long.
proof fn lemma_read_load(text: Seq<char>)
    ensures
        read(text) is Ok ==> read(text)->Ok_0.len() >= 1 && load(read(text)->Ok_0) <= text.len(),
    decreases text.len(),
{
    if text.len() == 0 {
        let start = seq![Seq::<Tree>::empty()];
        assert(start == Seq::<Seq<Tree>>::empty().push(Seq::empty()));
        lemma_load_push(Seq::empty(), Seq::empty());
    } else {
        lemma_read_load(text.drop_last());
        if read(text.drop_last()) is Ok && read(text) is Ok {
            lemma_fed_load(read(text.drop_last())->Ok_0, text.last());
        }
    }
}

/// What is left of a text is no longer than the text.
pub proof fn lemma_commands_len(text: Seq<char>)
    ensures
        commands(text).len() <= text.len(),
    decreases text.len(),
{
    if text.len() > 0 {
        lemma_commands_len(text.drop_last());
    }
}

/// A parsed text lowers to a sequence that weighs no more than the text is long.
pub proof fn lemma_parsed_weight(text: Seq<char>)
    requires
        parsed(text) is Ok,
    ensures
        weight(lower_all(parsed(text)->Ok_0)) <= text.len(),
{
    lemma_read_load(text);
    let frames = read(text)->Ok_0;
    assert(frames == Seq::<Seq<Tree>>::empty().push(frames[0]));
    lemma_load_push(Seq::empty(), frames[0]);
}

/// Two sequences that fit make one that fits.
pub proof fn lemma_fits_append(a: Seq<Instr>, b: Seq<Instr>)
    requires
        fits(a),
        fits(b),
    ensures
        fits(a + b),
{
    assert forall|k: int| 0 <= k < (a + b).len() implies instr_fits(#[trigger] (a + b)[k]) by {
        if k < a.len() {
            assert(instr_fits(a[k]));
        } else {
            assert(instr_fits(b[k - a.len()]));
        }
    }
}

/// What a primal body is scaled to, and what coalescing emits for that, fit.
proof fn lemma_scaled_fits(body: Seq<Instr>, bound: int)
    requires
        primal(body),
        is_simple(body),
        weight(body) <= bound <= i32::MAX,
    ensures
        fits(scaled_body(body)),
        fits(emitted(scaled_body(body))),
        pending(scaled_body(body)) == net_shift(body),
    decreases body.len(),
{
    if body.len() > 0 {
        let before = body.drop_last();
        let i = body.last();
        let r = net_shift(before);
        let x = scaled_body(before);
        let piece = scaled(i, r);
        lemma_simple_prefix(body);
        assert(body == before.push(i));
        lemma_primal_push(before, i);
        lemma_weight_push(before, i);
        lemma_weight_bounds(before);
        lemma_instr_weight_bounds(i);
        lemma_scaled_fits(before, bound);
        lemma_scaled_body_push(before, i);
        lemma_net_shift_push(before, i);
        if piece.len() == 0 {
            assert(x + piece == x);
        } else {
            assert(x + piece == x.push(piece[0]));
            assert(piece == seq![piece[0]]);
            lemma_fits_append(x, piece);
            lemma_pending_push(x, piece[0]);
            lemma_emitted_push(x, piece[0]);
            lemma_fits_append(emitted(x), rebased(piece[0], pending(x)));
        }
    }
}

/// What conversion and then coalescing make of a primal instruction fits.
proof fn lemma_optimize_instr_fits(i: Instr, bound: int)
    requires
        instr_primal(i),
        instr_weight(i) <= bound <= i32::MAX,
    ensures
        instr_fits(convert(i)),
        i is Loop ==> fits(coalesce(convert(i)->Loop_0)),
    decreases i, 0int,
{
    match i {
        Instr::Loop(body) => {
            if is_multiply_loop(i) {
                let scaled = scaled_body(body);
                let zero = Instr::Zero(0);
                lemma_scaled_fits(body, bound);
                lemma_weight_bounds(body);
                assert(scaled.push(zero) == scaled + seq![zero]);
                lemma_fits_append(scaled, seq![zero]);
                lemma_emitted_push(scaled, zero);
                lemma_pending_push(scaled, zero);
                lemma_fits_append(emitted(scaled), rebased(zero, pending(scaled)));
                lemma_fits_append(emitted(scaled.push(zero)), flush(pending(scaled.push(zero))));
            } else {
                lemma_optimize_fits(body, bound);
            }
        },
        _ => {},
    }
}

/// What conversion, and conversion and then coalescing, make of a primal
/// sequence fits, where the sequence weighs no more than an amount can hold.
pub proof fn lemma_optimize_fits(s: Seq<Instr>, bound: int)
    requires
        primal(s),
        weight(s) <= bound <= i32::MAX,
    ensures
        fits(convert_all(s)),
        fits(emitted(convert_all(s))),
        fits(coalesce(convert_all(s))),
        pending(convert_all(s)) == pending(s),
    decreases s, 1int,
{
    if s.len() > 0 {
        let before = s.drop_last();
        let i = s.last();
        let cb = convert_all(before);
        assert(s == before.push(i));
        lemma_primal_push(before, i);
        lemma_weight_push(before, i);
        lemma_weight_bounds(before);
        lemma_instr_weight_bounds(i);
        lemma_optimize_fits(before, bound);
        lemma_optimize_instr_fits(i, bound);
        assert(convert_all(s) == cb + seq![convert(i)]);
        lemma_fits_append(cb, seq![convert(i)]);
        lemma_emitted_push(cb, convert(i));
        lemma_pending_push(cb, convert(i));
        assert(s == before.push(i));
        lemma_pending_push(before, i);
        let piece = rebased(convert(i), pending(cb));
        assert forall|k: int| 0 <= k < piece.len() implies instr_fits(#[trigger] piece[k]) by {}
        lemma_fits_append(emitted(cb), piece);
    }
    lemma_weight_bounds(s);
    lemma_fits_append(emitted(convert_all(s)), flush(pending(convert_all(s))));
}

/// Both passes can be carried out on the program of every text of at most
/// `i32::MAX` characters.
pub proof fn lemma_program_optimizable(text: Seq<char>)
    requires
        text.len() <= i32::MAX,
        parsed(commands(text)) is Ok,
    ensures
        optimizable(lower_all(parsed(commands(text))->Ok_0)),
{
    lemma_commands_len(text);
    lemma_parsed_primal(commands(text));
    lemma_parsed_weight(commands(text));
    lemma_optimize_fits(lower_all(parsed(commands(text))->Ok_0), i32::MAX as int);
}

} // verus!
