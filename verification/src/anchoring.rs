//! The shape of the instruction trees that come from source text, before and
//! after multiply-loop conversion.

use vstd::prelude::*;
use crate::coalesced_runs::{anchored, dangling, instr_anchored, resolves_pointer};
use crate::model::{
    convert, convert_all, is_multiply_loop, is_simple, lemma_lower_all_push, lemma_net_shift_push,
    lemma_pending_push, lemma_scaled_body_push, lower, lower_all, net_shift, pending, scaled,
    scaled_body, Instr,
};
use crate::sweeps::lemma_simple_prefix;
use crate::syntax::{added, fed, parsed, read, shifted, Tree};

verus! {

/// An instruction as lowering gives it: every offset is zero, and every loop
/// body is primal.
pub open spec fn instr_primal(i: Instr) -> bool
    decreases i,
{
    match i {
        Instr::Loop(body) => primal(body),
        Instr::Shift(_) => true,
        Instr::AddConst(o, _) => o == 0,
        Instr::Output(o) => o == 0,
        Instr::Input(o) => o == 0,
        _ => false,
    }
}

/// A sequence as the lowering of a parsed text gives it: at every depth,
/// every offset is zero and no two movements are neighbours.
pub open spec fn primal(s: Seq<Instr>) -> bool
    decreases s,
{
    s.len() == 0 || {
        &&& primal(s.drop_last())
        &&& instr_primal(s.last())
        &&& !(s.last() is Shift && s.len() > 1 && s.drop_last().last() is Shift)
    }
}

/// A sequence with one more instruction is primal where the sequence and the
/// instruction are, and the two do not make neighbouring movements.
pub proof fn lemma_primal_push(s: Seq<Instr>, i: Instr)
    ensures
        primal(s.push(i)) <==> primal(s) && instr_primal(i) && !(i is Shift && s.len() > 0
            && s.last() is Shift),
{
    assert(s.push(i).drop_last() == s);
}

/// A sequence with one more instruction is anchored where the sequence and
/// the instruction are, and the instruction follows no dangling movement
/// that it does not resolve.
proof fn lemma_anchored_push(s: Seq<Instr>, i: Instr)
    ensures
        anchored(s.push(i)) <==> anchored(s) && instr_anchored(i) && (dangling(s)
            ==> resolves_pointer(i)),
{
    assert(s.push(i).drop_last() == s);
}

/// The lowering of a sequence under construction stays primal when a
/// movement joins it.
proof fn lemma_shifted_primal(frame: Seq<Tree>, by: int)
    requires
        primal(lower_all(frame)),
    ensures
        primal(lower_all(shifted(frame, by))),
{
    if frame.len() > 0 && frame.last() is Shift {
        let n = Tree::Shift(frame.last()->Shift_0 + by);
        let before = frame.drop_last();
        assert(frame == before.push(frame.last()));
        assert(shifted(frame, by) == before.push(n));
        lemma_lower_all_push(before, frame.last());
        lemma_lower_all_push(before, n);
        lemma_primal_push(lower_all(before), lower(frame.last()));
        lemma_primal_push(lower_all(before), lower(n));
    } else {
        let n = Tree::Shift(by);
        lemma_lower_all_push(frame, n);
        lemma_primal_push(lower_all(frame), lower(n));
        if frame.len() > 0 {
            assert(frame == frame.drop_last().push(frame.last()));
            lemma_lower_all_push(frame.drop_last(), frame.last());
        }
    }
}

/// The lowering of a sequence under construction stays primal when an
/// addition joins it.
proof fn lemma_added_primal(frame: Seq<Tree>, by: int)
    requires
        primal(lower_all(frame)),
    ensures
        primal(lower_all(added(frame, by))),
{
    if frame.len() > 0 && frame.last() is Arith {
        let n = Tree::Arith(frame.last()->Arith_0 + by);
        let before = frame.drop_last();
        assert(frame == before.push(frame.last()));
        assert(added(frame, by) == before.push(n));
        lemma_lower_all_push(before, frame.last());
        lemma_lower_all_push(before, n);
        lemma_primal_push(lower_all(before), lower(frame.last()));
        lemma_primal_push(lower_all(before), lower(n));
    } else {
        let n = Tree::Arith(by);
        lemma_lower_all_push(frame, n);
        lemma_primal_push(lower_all(frame), lower(n));
    }
}

/// Every sequence that the reader holds lowers to a primal sequence.
pub open spec fn frames_primal(frames: Seq<Seq<Tree>>) -> bool {
    forall|j: int| 0 <= j < frames.len() ==> primal(lower_all(#[trigger] frames[j]))
}

/// One more character leaves every sequence that the reader holds primal.
proof fn lemma_fed_primal(frames: Seq<Seq<Tree>>, c: char)
    requires
        frames.len() >= 1,
        frames_primal(frames),
        fed(frames, c) is Ok,
    ensures
        fed(frames, c)->Ok_0.len() >= 1,
        frames_primal(fed(frames, c)->Ok_0),
{
    let next = fed(frames, c)->Ok_0;
    let top = frames.last();
    assert(primal(lower_all(frames[frames.len() - 1])));
    if c == '>' {
        lemma_shifted_primal(top, 1);
    } else if c == '<' {
        lemma_shifted_primal(top, -1);
    } else if c == '+' {
        lemma_added_primal(top, 1);
    } else if c == '-' {
        lemma_added_primal(top, -1);
    } else if c == '.' {
        lemma_lower_all_push(top, Tree::Output);
        lemma_primal_push(lower_all(top), lower(Tree::Output));
    } else if c == ',' {
        lemma_lower_all_push(top, Tree::Input);
        lemma_primal_push(lower_all(top), lower(Tree::Input));
    } else if c == ']' {
        let outer = frames[frames.len() - 2];
        assert(primal(lower_all(outer)));
        lemma_lower_all_push(outer, Tree::Loop(top));
        lemma_primal_push(lower_all(outer), lower(Tree::Loop(top)));
        assert(frames.drop_last().last() == outer);
    }
    assert forall|j: int| 0 <= j < next.len() implies primal(lower_all(#[trigger] next[j])) by {
        if j < frames.len() {
            assert(primal(lower_all(frames[j])));
        }
    }
}

/// Every sequence that the reader holds lowers to a primal sequence.
pub proof fn lemma_read_primal(text: Seq<char>)
    ensures
        read(text) is Ok ==> read(text)->Ok_0.len() >= 1 && frames_primal(read(text)->Ok_0),
    decreases text.len(),
{
    if text.len() > 0 {
        lemma_read_primal(text.drop_last());
        if read(text.drop_last()) is Ok && read(text) is Ok {
            lemma_fed_primal(read(text.drop_last())->Ok_0, text.last());
        }
    }
}

/// A parsed text lowers to a primal sequence.
pub proof fn lemma_parsed_primal(text: Seq<char>)
    requires
        parsed(text) is Ok,
    ensures
        primal(lower_all(parsed(text)->Ok_0)),
{
    lemma_read_primal(text);
    assert(primal(lower_all(read(text)->Ok_0[0])));
}

/// The scaled body of a primal simple body is anchored.
proof fn lemma_scaled_anchored(body: Seq<Instr>)
    requires
        primal(body),
        is_simple(body),
    ensures
        anchored(scaled_body(body)),
        pending(scaled_body(body)) == net_shift(body),
        dangling(scaled_body(body)) ==> body.len() > 0 && body.last() is Shift,
    decreases body.len(),
{
    if body.len() > 0 {
        let before = body.drop_last();
        let i = body.last();
        let r = net_shift(before);
        let x = scaled_body(before);
        let piece = scaled(i, r);
        lemma_simple_prefix(body);
        assert(body == before.push(i));
        lemma_primal_push(before, i);
        lemma_scaled_anchored(before);
        lemma_scaled_body_push(before, i);
        lemma_net_shift_push(before, i);
        if piece.len() == 0 {
            assert(x + piece == x);
        } else {
            assert(x + piece == x.push(piece[0]));
            lemma_anchored_push(x, piece[0]);
            lemma_pending_push(x, piece[0]);
            assert(x.push(piece[0]).last() == piece[0]);
        }
    }
}

/// What conversion makes of a primal instruction is anchored.
proof fn lemma_convert_instr_anchored(i: Instr)
    requires
        instr_primal(i),
    ensures
        instr_anchored(convert(i)),
        convert(i) is Shift <==> i is Shift,
        !(i is Shift) ==> resolves_pointer(convert(i)),
    decreases i,
{
    match i {
        Instr::Loop(body) => {
            if is_multiply_loop(i) {
                lemma_scaled_anchored(body);
                lemma_anchored_push(scaled_body(body), Instr::Zero(0));
            } else {
                lemma_convert_anchored(body);
            }
        },
        _ => {},
    }
}

/// What conversion makes of a primal sequence is anchored.
pub proof fn lemma_convert_anchored(s: Seq<Instr>)
    requires
        primal(s),
    ensures
        anchored(convert_all(s)),
        dangling(convert_all(s)) ==> s.len() > 0 && s.last() is Shift,
    decreases s,
{
    if s.len() > 0 {
        let before = s.drop_last();
        lemma_convert_anchored(before);
        lemma_convert_instr_anchored(s.last());
        lemma_anchored_push(convert_all(before), convert(s.last()));
    }
}

} // verus!
