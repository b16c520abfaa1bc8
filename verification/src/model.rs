//! The instruction tree as a mathematical value, and the two rewriting passes
//! as functions on it.
//!
//! Offsets and amounts are unbounded integers here. The executable tree in
//! [`crate::ir`] has this tree as its view.

use vstd::prelude::*;
use crate::syntax::Tree;

verus! {

/// One instruction. Every offset is relative to the pointer at the moment the
/// instruction is reached.
pub enum Instr {
    /// Repeat the body while the cell under the pointer is nonzero.
    Loop(Seq<Instr>),
    /// Move the pointer by a signed distance.
    Shift(int),
    /// `AddConst(o, a)`: add `a` to the cell at offset `o`.
    AddConst(int, int),
    /// `AddMult(o, m, a)`: add `a` times the cell at offset `m` to the cell at offset `o`.
    AddMult(int, int, int),
    /// Set the cell at the offset to zero.
    Zero(int),
    /// Write the cell at the offset.
    Output(int),
    /// Read one byte into the cell at the offset.
    Input(int),
}

/// Lowering of one node of the syntax tree: every offset is zero.
pub open spec fn lower(t: Tree) -> Instr
    decreases t,
{
    match t {
        Tree::Loop(body) => Instr::Loop(lower_all(body)),
        Tree::Shift(d) => Instr::Shift(d),
        Tree::Arith(a) => Instr::AddConst(0, a),
        Tree::Output => Instr::Output(0),
        Tree::Input => Instr::Input(0),
    }
}

/// Lowering of each node of a sequence.
pub open spec fn lower_all(ts: Seq<Tree>) -> Seq<Instr>
    decreases ts,
{
    if ts.len() == 0 {
        Seq::empty()
    } else {
        lower_all(ts.drop_last()).push(lower(ts.last()))
    }
}

/// Whether `x` can be held in an offset of the executable tree.
pub open spec fn is_offset(x: int) -> bool {
    isize::MIN <= x <= isize::MAX
}

/// Whether `x` can be held in an amount of the executable tree.
pub open spec fn is_amount(x: int) -> bool {
    i32::MIN <= x <= i32::MAX
}

/// Whether every number in the instruction can be held by the executable tree.
pub open spec fn instr_fits(i: Instr) -> bool
    decreases i,
{
    match i {
        Instr::Loop(body) => fits(body),
        Instr::Shift(d) => is_offset(d),
        Instr::AddConst(o, a) => is_offset(o) && is_amount(a),
        Instr::AddMult(o, m, a) => is_offset(o) && is_offset(m) && is_amount(a),
        Instr::Zero(o) => is_offset(o),
        Instr::Output(o) => is_offset(o),
        Instr::Input(o) => is_offset(o),
    }
}

/// Whether every number in the sequence, at any depth, can be held by the
/// executable tree.
pub open spec fn fits(s: Seq<Instr>) -> bool
    decreases s,
{
    forall|k: int| 0 <= k < s.len() ==> instr_fits(#[trigger] s[k])
}

/// The distance by which one instruction moves the pointer, loops not entered.
pub open spec fn shift_of(i: Instr) -> int {
    match i {
        Instr::Shift(d) => d,
        _ => 0,
    }
}

/// The sum of the distances of the `Shift`s that stand directly in `s`.
pub open spec fn net_shift(s: Seq<Instr>) -> int
    decreases s.len(),
{
    if s.len() == 0 {
        0
    } else {
        net_shift(s.drop_last()) + shift_of(s.last())
    }
}

/// A body made of `Shift` and `AddConst` only.
pub open spec fn is_simple(s: Seq<Instr>) -> bool {
    forall|k: int| 0 <= k < s.len() ==> (#[trigger] s[k] is Shift || s[k] is AddConst)
}

/// What instruction `i` adds to the cell from which the body started, when
/// the pointer has moved by `at` since then.
pub open spec fn gain_of(i: Instr, at: int) -> int {
    match i {
        Instr::AddConst(o, a) => if at + o == 0 {
            a
        } else {
            0
        },
        _ => 0,
    }
}

/// What one pass over `s` adds to the cell from which it started.
pub open spec fn counter_gain(s: Seq<Instr>) -> int
    decreases s.len(),
{
    if s.len() == 0 {
        0
    } else {
        counter_gain(s.drop_last()) + gain_of(s.last(), net_shift(s.drop_last()))
    }
}

/// A multiply loop: a loop over a simple body that brings the pointer back to
/// where it started and takes exactly one, as a byte, from the cell there.
pub open spec fn is_multiply_loop(i: Instr) -> bool {
    match i {
        Instr::Loop(body) => is_simple(body) && net_shift(body) == 0 && counter_gain(body) % 256
            == 255,
        _ => false,
    }
}

/// What the conversion of a multiply loop emits for one instruction of its
/// body, when the pointer has moved by `at` since the body started.
pub open spec fn scaled(i: Instr, at: int) -> Seq<Instr> {
    match i {
        Instr::Shift(d) => seq![Instr::Shift(d)],
        Instr::AddConst(o, a) => if at + o != 0 {
            seq![Instr::AddMult(o, -at, a)]
        } else {
            Seq::empty()
        },
        _ => Seq::empty(),
    }
}

/// The body of a multiply loop with each addition turned into a
/// multiply-accumulate that reads the counter cell. The additions to the
/// counter cell itself are left out.
pub open spec fn scaled_body(s: Seq<Instr>) -> Seq<Instr>
    decreases s.len(),
{
    if s.len() == 0 {
        Seq::empty()
    } else {
        scaled_body(s.drop_last()) + scaled(s.last(), net_shift(s.drop_last()))
    }
}

/// Multiply-loop conversion of one instruction: a multiply loop becomes a loop
/// that runs once, over the scaled body followed by `Zero(0)`; any other loop
/// has its body converted; anything else stays.
pub open spec fn convert(i: Instr) -> Instr
    decreases i,
{
    match i {
        Instr::Loop(body) => if is_multiply_loop(i) {
            Instr::Loop(scaled_body(body).push(Instr::Zero(0)))
        } else {
            Instr::Loop(convert_all(body))
        },
        _ => i,
    }
}

/// Multiply-loop conversion of each instruction of a sequence.
pub open spec fn convert_all(s: Seq<Instr>) -> Seq<Instr>
    decreases s,
{
    if s.len() == 0 {
        Seq::empty()
    } else {
        convert_all(s.drop_last()).push(convert(s.last()))
    }
}

/// The movement that move coalescing has gathered and not yet emitted when it
/// has gone through `s`.
pub open spec fn pending(s: Seq<Instr>) -> int
    decreases s.len(),
{
    if s.len() == 0 {
        0
    } else {
        match s.last() {
            Instr::Shift(d) => pending(s.drop_last()) + d,
            Instr::Loop(_) => 0,
            _ => pending(s.drop_last()),
        }
    }
}

/// A pending movement made real: one `Shift`, or nothing where it is zero.
pub open spec fn flush(r: int) -> Seq<Instr> {
    if r != 0 {
        seq![Instr::Shift(r)]
    } else {
        Seq::empty()
    }
}

/// What move coalescing emits for one instruction while `r` is pending.
pub open spec fn rebased(i: Instr, r: int) -> Seq<Instr>
    decreases i, 0int,
{
    match i {
        Instr::Loop(body) => flush(r).push(Instr::Loop(coalesce(body))),
        Instr::Shift(_) => Seq::empty(),
        Instr::AddConst(o, a) => seq![Instr::AddConst(o + r, a)],
        Instr::AddMult(o, m, a) => seq![Instr::AddMult(o + r, m + r, a)],
        Instr::Zero(o) => seq![Instr::Zero(o + r)],
        Instr::Output(o) => seq![Instr::Output(o + r)],
        Instr::Input(o) => seq![Instr::Input(o + r)],
    }
}

/// What move coalescing has emitted when it has gone through `s`, before the
/// movement still pending is made real.
pub open spec fn emitted(s: Seq<Instr>) -> Seq<Instr>
    decreases s, 0int,
{
    if s.len() == 0 {
        Seq::empty()
    } else {
        emitted(s.drop_last()) + rebased(s.last(), pending(s.drop_last()))
    }
}

/// Move coalescing of one sequence, each loop body being a scope of its own.
pub open spec fn coalesce(s: Seq<Instr>) -> Seq<Instr>
    decreases s, 1int,
{
    emitted(s) + flush(pending(s))
}

/// Both passes: multiply-loop conversion, then move coalescing.
pub open spec fn optimize(s: Seq<Instr>) -> Seq<Instr> {
    coalesce(convert_all(s))
}

/// Whether both passes can be carried out on the executable tree: what each of
/// them gives fits.
pub open spec fn optimizable(s: Seq<Instr>) -> bool {
    fits(convert_all(s)) && fits(optimize(s))
}

/// `lower_all` works node by node.
pub proof fn lemma_lower_all(ts: Seq<Tree>)
    ensures
        lower_all(ts).len() == ts.len(),
        forall|k: int| 0 <= k < ts.len() ==> #[trigger] lower_all(ts)[k] == lower(ts[k]),
    decreases ts.len(),
{
    if ts.len() > 0 {
        lemma_lower_all(ts.drop_last());
    }
}

/// `lower_all` of a sequence and one more node.
pub proof fn lemma_lower_all_push(ts: Seq<Tree>, t: Tree)
    ensures
        lower_all(ts.push(t)) == lower_all(ts).push(lower(t)),
{
    assert(ts.push(t).drop_last() == ts);
}

/// `a` is the beginning of `b`.
pub open spec fn starts(b: Seq<Instr>, a: Seq<Instr>) -> bool {
    &&& a.len() <= b.len()
    &&& forall|k: int| 0 <= k < a.len() ==> a[k] == b[k]
}

/// The movement of a sequence with one more instruction.
pub proof fn lemma_net_shift_push(s: Seq<Instr>, i: Instr)
    ensures
        net_shift(s.push(i)) == net_shift(s) + shift_of(i),
{
    assert(s.push(i).drop_last() == s);
}

/// The gain of the counter cell from a sequence with one more instruction.
pub proof fn lemma_counter_gain_push(s: Seq<Instr>, i: Instr)
    ensures
        counter_gain(s.push(i)) == counter_gain(s) + gain_of(i, net_shift(s)),
{
    assert(s.push(i).drop_last() == s);
}

/// The scaled body of a sequence with one more instruction.
pub proof fn lemma_scaled_body_push(s: Seq<Instr>, i: Instr)
    ensures
        scaled_body(s.push(i)) == scaled_body(s) + scaled(i, net_shift(s)),
{
    assert(s.push(i).drop_last() == s);
}

/// The movement pending after a sequence with one more instruction.
pub proof fn lemma_pending_push(s: Seq<Instr>, i: Instr)
    ensures
        pending(s.push(i)) == match i {
            Instr::Shift(d) => pending(s) + d,
            Instr::Loop(_) => 0,
            _ => pending(s),
        },
{
    assert(s.push(i).drop_last() == s);
}

/// What coalescing has emitted for a sequence with one more instruction.
pub proof fn lemma_emitted_push(s: Seq<Instr>, i: Instr)
    ensures
        emitted(s.push(i)) == emitted(s) + rebased(i, pending(s)),
{
    assert(s.push(i).drop_last() == s);
}

/// `convert_all` works instruction by instruction.
pub proof fn lemma_convert_all(s: Seq<Instr>)
    ensures
        convert_all(s).len() == s.len(),
        forall|k: int| 0 <= k < s.len() ==> #[trigger] convert_all(s)[k] == convert(s[k]),
    decreases s.len(),
{
    if s.len() > 0 {
        lemma_convert_all(s.drop_last());
    }
}

/// What the conversion emits for the first `k` instructions of a body is the
/// beginning of what it emits for the whole body.
pub proof fn lemma_scaled_body_starts(s: Seq<Instr>, k: int)
    requires
        0 <= k <= s.len(),
    ensures
        starts(scaled_body(s), scaled_body(s.take(k))),
    decreases s.len(),
{
    if k == s.len() {
        assert(s.take(k) == s);
    } else {
        assert(s.drop_last().take(k) == s.take(k));
        lemma_scaled_body_starts(s.drop_last(), k);
    }
}

/// What coalescing has emitted after the first `k` instructions is the
/// beginning of what it emits in the end.
pub proof fn lemma_emitted_starts(s: Seq<Instr>, k: int)
    requires
        0 <= k <= s.len(),
    ensures
        starts(emitted(s), emitted(s.take(k))),
        starts(coalesce(s), emitted(s.take(k))),
    decreases s.len(),
{
    if k == s.len() {
        assert(s.take(k) == s);
    } else {
        assert(s.drop_last().take(k) == s.take(k));
        lemma_emitted_starts(s.drop_last(), k);
    }
}

/// Where the coalesced sequence fits, so does what is emitted for each
/// instruction on the way.
pub proof fn lemma_rebased_fits(s: Seq<Instr>, k: int)
    requires
        0 <= k < s.len(),
        fits(coalesce(s)),
    ensures
        emitted(s.take(k + 1)) == emitted(s.take(k)) + rebased(s[k], pending(s.take(k))),
        fits(rebased(s[k], pending(s.take(k)))),
{
    let piece = rebased(s[k], pending(s.take(k)));
    let before = emitted(s.take(k));
    assert(s.take(k + 1).drop_last() == s.take(k));
    lemma_emitted_starts(s, k + 1);
    assert forall|j: int| 0 <= j < piece.len() implies instr_fits(#[trigger] piece[j]) by {
        assert(emitted(s.take(k + 1))[before.len() + j] == piece[j]);
        assert(instr_fits(coalesce(s)[before.len() + j]));
    }
}

/// Where the coalesced sequence fits, so does the movement made real at its end.
pub proof fn lemma_flush_fits(s: Seq<Instr>)
    requires
        fits(coalesce(s)),
    ensures
        fits(flush(pending(s))),
{
    let piece = flush(pending(s));
    assert forall|j: int| 0 <= j < piece.len() implies instr_fits(#[trigger] piece[j]) by {
        assert(instr_fits(coalesce(s)[emitted(s).len() + j]));
    }
}

} // verus!
