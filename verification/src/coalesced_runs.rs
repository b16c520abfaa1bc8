//! A coalesced sequence does what the sequence it was made from does.
//!
//! While coalescing holds a movement back, the coalesced run has its pointer
//! that far behind, and addresses the same cells through larger offsets.

use vstd::prelude::*;
use crate::growth::{lemma_run_grows, lemma_run_loop_grows};
use crate::machine::{
    address_fault, cell, grown, run, run_loop, step, well_formed, Fault, Outcome, State,
};
use crate::model::{coalesce, emitted, flush, pending, rebased, Instr};
use crate::sequencing::{lemma_run_append, lemma_run_one, lemma_run_push};

verus! {

/// Two tapes that hold the same cells, whatever their lengths.
pub open spec fn same_cells(a: Seq<u8>, b: Seq<u8>) -> bool {
    forall|x: int| #[trigger] cell(a, x) == cell(b, x)
}

/// Two states that have read and written the same bytes and have the same budget left.
pub open spec fn same_streams(a: State, b: State) -> bool {
    a.input == b.input && a.output == b.output && a.fuel == b.fuel
}

/// State `b` is state `a` with its pointer `r` cells to the left: the cells
/// hold the same values, and the same bytes were read and written.
pub open spec fn aligned(a: State, b: State, r: int) -> bool {
    &&& a.pointer == b.pointer + r
    &&& same_cells(a.tape, b.tape)
    &&& same_streams(a, b)
}

/// The run did not end on an address that cannot be resolved.
pub open spec fn in_bounds(o: Outcome) -> bool {
    o.fault != Some(Fault::NegativeAddress) && o.fault != Some(Fault::TapeLimit)
}

/// The instruction resolves the address of the cell under the pointer before
/// it does anything else.
pub open spec fn resolves_pointer(i: Instr) -> bool {
    match i {
        Instr::Loop(_) => true,
        Instr::Shift(_) => false,
        Instr::AddConst(o, _) => o == 0,
        Instr::AddMult(o, _, _) => o == 0,
        Instr::Zero(o) => o == 0,
        Instr::Output(o) => o == 0,
        Instr::Input(o) => o == 0,
    }
}

/// The sequence ends in a movement that has taken the pointer away from
/// where the last loop left it, or from where the sequence started.
pub open spec fn dangling(s: Seq<Instr>) -> bool {
    s.len() > 0 && s.last() is Shift && pending(s) != 0
}

/// The body of the instruction is anchored.
pub open spec fn instr_anchored(i: Instr) -> bool
    decreases i,
{
    match i {
        Instr::Loop(body) => anchored(body),
        _ => true,
    }
}

/// At every depth, a movement that takes the pointer away is followed by
/// nothing, or by an instruction that resolves the address of the cell that
/// the pointer was taken to. A fault of the movement is then a fault of what
/// follows it, when the movement is folded into that.
pub open spec fn anchored(s: Seq<Instr>) -> bool
    decreases s,
{
    s.len() == 0 || {
        &&& anchored(s.drop_last())
        &&& instr_anchored(s.last())
        &&& dangling(s.drop_last()) ==> resolves_pointer(s.last())
    }
}

/// Growing a tape changes no cell.
pub proof fn lemma_grown_cells(t: Seq<u8>, at: int)
    requires
        0 <= at,
    ensures
        same_cells(grown(t, at), t),
        grown(t, at).len() == if at < t.len() { t.len() as int } else { at + 1 },
{
    assert forall|x: int| #[trigger] cell(grown(t, at), x) == cell(t, x) by {}
}

/// An instruction that addresses cells, and its rebased form, do the same
/// to aligned states.
proof fn lemma_step_aligned(i: Instr, a: State, b: State, r: int)
    requires
        well_formed(a),
        well_formed(b),
        aligned(a, b, r),
        !(i is Loop),
        !(i is Shift),
    ensures
        step(rebased(i, r)[0], b).fault == step(i, a).fault,
        aligned(step(i, a).state, step(rebased(i, r)[0], b).state, r),
{
    let ra = step(i, a).state;
    let rb = step(rebased(i, r)[0], b).state;
    match i {
        Instr::AddMult(o, m, v) => {
            let at = a.pointer + o;
            let from = a.pointer + m;
            if 0 <= at {
                lemma_grown_cells(a.tape, at);
                lemma_grown_cells(b.tape, at);
                if 0 <= from {
                    lemma_grown_cells(grown(a.tape, at), from);
                    lemma_grown_cells(grown(b.tape, at), from);
                }
            }
            assert forall|x: int| #[trigger] cell(ra.tape, x) == cell(rb.tape, x) by {
                assert(cell(a.tape, x) == cell(b.tape, x));
                assert(cell(a.tape, at) == cell(b.tape, at));
                assert(cell(a.tape, from) == cell(b.tape, from));
                if 0 <= at {
                    assert(cell(grown(a.tape, at), x) == cell(a.tape, x));
                    assert(cell(grown(b.tape, at), x) == cell(b.tape, x));
                    assert(cell(grown(a.tape, at), at) == cell(a.tape, at));
                    assert(cell(grown(b.tape, at), at) == cell(b.tape, at));
                    if 0 <= from {
                        let ga = grown(a.tape, at);
                        let gb = grown(b.tape, at);
                        assert(cell(grown(ga, from), x) == cell(ga, x));
                        assert(cell(grown(gb, from), x) == cell(gb, x));
                        assert(cell(grown(ga, from), at) == cell(ga, at));
                        assert(cell(grown(gb, from), at) == cell(gb, at));
                        assert(cell(grown(ga, from), from) == cell(ga, from));
                        assert(cell(grown(gb, from), from) == cell(gb, from));
                        assert(cell(ga, from) == cell(a.tape, from));
                        assert(cell(gb, from) == cell(b.tape, from));
                    }
                }
            }
        },
        Instr::AddConst(o, _) | Instr::Zero(o) | Instr::Output(o) | Instr::Input(o) => {
            let at = a.pointer + o;
            if 0 <= at {
                lemma_grown_cells(a.tape, at);
                lemma_grown_cells(b.tape, at);
            }
            assert(cell(a.tape, at) == cell(b.tape, at));
            assert forall|x: int| #[trigger] cell(ra.tape, x) == cell(rb.tape, x) by {
                assert(cell(a.tape, x) == cell(b.tape, x));
                if 0 <= at {
                    assert(cell(grown(a.tape, at), x) == cell(a.tape, x));
                    assert(cell(grown(b.tape, at), x) == cell(b.tape, x));
                    assert(cell(grown(a.tape, at), at) == cell(a.tape, at));
                    assert(cell(grown(b.tape, at), at) == cell(b.tape, at));
                }
            }
        },
        _ => {},
    }
}

/// A pending movement made real brings the pointer level.
proof fn lemma_flush_aligned(a: State, b: State, r: int)
    requires
        well_formed(a),
        well_formed(b),
        aligned(a, b, r),
    ensures
        run(flush(r), b).fault is None,
        aligned(a, run(flush(r), b).state, 0),
        well_formed(run(flush(r), b).state),
{
    if r != 0 {
        lemma_run_one(Instr::Shift(r), b);
        lemma_grown_cells(b.tape, a.pointer);
        let rb = run(flush(r), b).state;
        assert forall|x: int| #[trigger] cell(a.tape, x) == cell(rb.tape, x) by {
            assert(cell(a.tape, x) == cell(b.tape, x));
            assert(cell(grown(b.tape, a.pointer), x) == cell(b.tape, x));
        }
    }
}

/// An instruction that resolves the pointer, rebased by a movement that
/// cannot be made, faults as the movement would.
proof fn lemma_rebased_faults(i: Instr, b: State, r: int)
    requires
        well_formed(b),
        resolves_pointer(i),
        r != 0,
        address_fault(b.pointer + r) is Some,
    ensures
        run(rebased(i, r), b).fault == address_fault(b.pointer + r),
        run(rebased(i, r), b).state == b,
{
    let piece = rebased(i, r);
    match i {
        Instr::Loop(body) => {
            let inner = Instr::Loop(coalesce(body));
            assert(piece == flush(r) + seq![inner]);
            lemma_run_append(flush(r), seq![inner], b);
            lemma_run_one(Instr::Shift(r), b);
        },
        _ => {
            assert(piece == seq![piece[0]]);
            lemma_run_one(piece[0], b);
        },
    }
}

/// What coalescing has emitted for a sequence does what the sequence does,
/// up to the movement that is still pending. A fault of a movement at the
/// end of the sequence is still to come.
proof fn lemma_emitted_run(code: Seq<Instr>, a: State, b: State)
    requires
        well_formed(a),
        well_formed(b),
        aligned(a, b, 0),
        anchored(code) || in_bounds(run(code, a)),
    ensures
        same_streams(run(code, a).state, run(emitted(code), b).state),
        well_formed(run(emitted(code), b).state),
        run(code, a).fault is None ==> run(emitted(code), b).fault is None && aligned(
            run(code, a).state,
            run(emitted(code), b).state,
            pending(code),
        ),
        in_bounds(run(code, a)) ==> run(emitted(code), b).fault == run(code, a).fault,
        !in_bounds(run(code, a)) ==> run(emitted(code), b).fault == run(code, a).fault || {
            &&& run(emitted(code), b).fault is None
            &&& dangling(code)
            &&& address_fault(run(emitted(code), b).state.pointer + pending(code)) == run(
                code,
                a,
            ).fault
        },
    decreases code, a.fuel, 1int,
{
    lemma_run_grows(emitted(code), b);
    if code.len() > 0 {
        let before = code.drop_last();
        let i = code.last();
        let r = pending(before);
        let piece = rebased(i, r);
        assert(code == before.push(i));
        lemma_run_push(before, i, a);
        lemma_run_append(emitted(before), piece, b);
        lemma_emitted_run(before, a, b);
        let ma = run(before, a);
        let mb = run(emitted(before), b);
        lemma_run_grows(before, a);
        if ma.fault is None {
            match i {
                Instr::Loop(body) => {
                    lemma_flush_aligned(ma.state, mb.state, r);
                    let level = run(flush(r), mb.state).state;
                    let inner = Instr::Loop(coalesce(body));
                    assert(piece == flush(r) + seq![inner]);
                    lemma_run_append(flush(r), seq![inner], mb.state);
                    lemma_run_one(inner, level);
                    if anchored(code) {
                        assert(instr_anchored(i));
                    } else {
                        assert(run(code, a) == run_loop(body, ma.state));
                    }
                    lemma_coalesce_loop(body, ma.state, level);
                },
                Instr::Shift(d) => {
                    let at = ma.state.pointer + d;
                    if address_fault(at) is None {
                        lemma_grown_cells(ma.state.tape, at);
                        let ra = step(i, ma.state).state;
                        assert forall|x: int| #[trigger]
                            cell(ra.tape, x) == cell(mb.state.tape, x) by {
                            assert(cell(ma.state.tape, x) == cell(mb.state.tape, x));
                            assert(cell(grown(ma.state.tape, at), x) == cell(ma.state.tape, x));
                        }
                    }
                },
                _ => {
                    lemma_step_aligned(i, ma.state, mb.state, r);
                    assert(piece == seq![piece[0]]);
                    lemma_run_one(piece[0], mb.state);
                },
            }
        } else if !in_bounds(ma) && mb.fault is None {
            lemma_rebased_faults(i, mb.state, r);
        }
    }
}

/// A loop over a coalesced body does what the loop over the body does.
proof fn lemma_coalesce_loop(body: Seq<Instr>, a: State, b: State)
    requires
        well_formed(a),
        well_formed(b),
        aligned(a, b, 0),
        anchored(body) || in_bounds(run_loop(body, a)),
    ensures
        run_loop(coalesce(body), b).fault == run_loop(body, a).fault,
        same_streams(run_loop(body, a).state, run_loop(coalesce(body), b).state),
        run_loop(body, a).fault is None ==> aligned(
            run_loop(body, a).state,
            run_loop(coalesce(body), b).state,
            0,
        ),
        well_formed(run_loop(coalesce(body), b).state),
    decreases body, a.fuel, 3int,
{
    lemma_run_loop_grows(coalesce(body), b);
    assert(cell(a.tape, a.pointer) == cell(b.tape, b.pointer));
    if a.tape[a.pointer] != 0 && a.fuel != 0 {
        let ea = State { fuel: (a.fuel - 1) as nat, ..a };
        let eb = State { fuel: (b.fuel - 1) as nat, ..b };
        lemma_coalesce_run(body, ea, eb);
        lemma_run_grows(body, ea);
        let ra = run(body, ea);
        if ra.fault is None {
            lemma_coalesce_loop(body, ra.state, run(coalesce(body), eb).state);
        }
    }
}

/// Move coalescing keeps what a sequence does: from aligned states, the run
/// of a sequence and the run of the coalesced sequence end in the same way,
/// with the same bytes read and written, the same budget left and, where
/// they reach the end, the same cells and the same pointer. This holds of a
/// run that stays on the tape, and of every run of an anchored sequence.
pub proof fn lemma_coalesce_run(code: Seq<Instr>, a: State, b: State)
    requires
        well_formed(a),
        well_formed(b),
        aligned(a, b, 0),
        anchored(code) || in_bounds(run(code, a)),
    ensures
        run(coalesce(code), b).fault == run(code, a).fault,
        same_streams(run(code, a).state, run(coalesce(code), b).state),
        run(code, a).fault is None ==> aligned(run(code, a).state, run(coalesce(code), b).state, 0),
        well_formed(run(coalesce(code), b).state),
    decreases code, a.fuel, 2int,
{
    lemma_emitted_run(code, a, b);
    lemma_run_append(emitted(code), flush(pending(code)), b);
    lemma_run_grows(code, a);
    lemma_run_grows(coalesce(code), b);
    let mb = run(emitted(code), b);
    if run(code, a).fault is None {
        lemma_flush_aligned(run(code, a).state, mb.state, pending(code));
    } else if mb.fault is None {
        lemma_run_one(Instr::Shift(pending(code)), mb.state);
    }
}

} // verus!
