//! A converted sequence does what the sequence it was made from does, in no
//! more loop passes.

use vstd::prelude::*;
use crate::growth::{
    extends, lemma_extends_twice, lemma_run_grows, lemma_run_loop_grows, lemma_run_loop_writes,
    lemma_run_writes, lemma_step_grows,
};
use crate::machine::{done, run, run_loop, step, well_formed, Fault, Outcome, State};
use crate::model::{
    convert, convert_all, counter_gain, is_multiply_loop, is_simple, lemma_convert_all,
    lemma_net_shift_push, net_shift, scaled, scaled_body, Instr,
};
use crate::sequencing::{
    in_time, lemma_run_append, lemma_run_loop_refuelled, lemma_run_one, lemma_run_push,
    lemma_run_refuelled, refuelled,
};
use crate::sweeps::{
    clear, lemma_counter_runs_out, lemma_simple_prefix, lemma_swept_again, lemma_swept_skimmed,
    skimmed, swept,
};

verus! {

/// The state with another tape, ending at the highest address, and another pointer.
pub open spec fn placed(s: State, tape: Seq<u8>, pointer: int) -> State {
    State { tape, pointer, peak: tape.len() - 1, ..s }
}

/// The run reached its end, or stopped for want of input.
pub open spec fn calm(o: Outcome) -> bool {
    o.fault is None || o.fault == Some(Fault::EndOfInput)
}

/// The bytes read and written are the same in both states.
pub open spec fn same_bytes(a: State, b: State) -> bool {
    a.input == b.input && a.output == b.output
}

/// The outcome `b` ends as the outcome `a` does, with the same bytes read
/// and written and no less of the budget left; where they are no faults,
/// the two states differ in the budget alone.
pub open spec fn no_slower(b: Outcome, a: Outcome) -> bool {
    &&& b.fault == a.fault
    &&& same_bytes(a.state, b.state)
    &&& b.state.fuel >= a.state.fuel
    &&& a.fault is None ==> b.state == refuelled(a.state, (b.state.fuel - a.state.fuel) as nat)
}

/// What conversion keeps of an outcome: `b` is no slower than `a`, or, where
/// `a` stopped for want of budget, `b` has written what `a` has written and
/// may have written more.
pub open spec fn kept(b: Outcome, a: Outcome) -> bool {
    if in_time(a) {
        no_slower(b, a)
    } else {
        extends(b.state.output, a.state.output)
    }
}

/// One pass over a simple body: it faults on an address, or leaves the tape
/// swept once. It reads and writes nothing and takes nothing from the budget.
pub proof fn lemma_simple_run(body: Seq<Instr>, s: State)
    requires
        well_formed(s),
        is_simple(body),
    ensures
        clear(body, s.pointer) ==> run(body, s) == done(
            placed(s, swept(body, s.tape, s.pointer, 1), s.pointer + net_shift(body)),
        ),
        !clear(body, s.pointer) ==> run(body, s).fault == Some(Fault::NegativeAddress) || run(
            body,
            s,
        ).fault == Some(Fault::TapeLimit),
        same_bytes(run(body, s).state, s),
        run(body, s).state.fuel == s.fuel,
    decreases body.len(),
{
    if body.len() > 0 {
        let before = body.drop_last();
        let i = body.last();
        lemma_simple_prefix(body);
        lemma_simple_run(before, s);
        assert(body == before.push(i));
        lemma_run_push(before, i, s);
        lemma_run_grows(before, s);
        if clear(before, s.pointer) {
            match i {
                Instr::AddConst(o, a) => {
                    assert(1 * a == a);
                },
                _ => {},
            }
        }
    }
}

/// The scaled body of a simple body keeps its movements.
pub proof fn lemma_scaled_body_shift(body: Seq<Instr>)
    requires
        is_simple(body),
    ensures
        net_shift(scaled_body(body)) == net_shift(body),
    decreases body.len(),
{
    if body.len() > 0 {
        let before = body.drop_last();
        lemma_simple_prefix(body);
        lemma_scaled_body_shift(before);
        let piece = scaled(body.last(), net_shift(before));
        if piece.len() == 0 {
            assert(scaled_body(before) + piece == scaled_body(before));
        } else {
            assert(scaled_body(before) + piece == scaled_body(before).push(piece[0]));
            lemma_net_shift_push(scaled_body(before), piece[0]);
        }
    }
}

/// One pass over the scaled body: it faults where a pass over the body
/// faults, or leaves the tape as passes over the body would that spare the
/// counter, as many as the counter holds.
pub proof fn lemma_scaled_run(body: Seq<Instr>, s: State)
    requires
        well_formed(s),
        is_simple(body),
    ensures
        clear(body, s.pointer) ==> run(scaled_body(body), s) == done(
            placed(
                s,
                skimmed(body, s.tape, s.pointer, s.tape[s.pointer] as int),
                s.pointer + net_shift(body),
            ),
        ),
        run(scaled_body(body), s).fault == run(body, s).fault,
        same_bytes(run(scaled_body(body), s).state, s),
        run(scaled_body(body), s).state.fuel == s.fuel,
    decreases body.len(),
{
    if body.len() > 0 {
        let before = body.drop_last();
        let i = body.last();
        let c = s.tape[s.pointer] as int;
        lemma_simple_prefix(body);
        lemma_scaled_run(before, s);
        lemma_simple_run(before, s);
        lemma_simple_run(body, s);
        assert(body == before.push(i));
        lemma_run_push(before, i, s);
        let piece = scaled(i, net_shift(before));
        lemma_run_append(scaled_body(before), piece, s);
        lemma_run_grows(scaled_body(before), s);
        lemma_run_grows(before, s);
        let mid = run(scaled_body(before), s).state;
        if clear(before, s.pointer) {
            lemma_swept_skimmed(before, s.tape, s.pointer, c);
            lemma_scaled_body_shift(before);
            if piece.len() > 0 {
                assert(piece == seq![piece[0]]);
                lemma_run_one(piece[0], mid);
            } else {
                assert(run(piece, mid) == done(mid));
            }
        }
    }
}

/// A multiply loop that is entered and does not run out of budget: its
/// first pass faults on an address, or it makes as many passes as its counter
/// held, and leaves the tape swept that many times.
pub proof fn lemma_multiply_loop_run(body: Seq<Instr>, s: State)
    requires
        well_formed(s),
        is_multiply_loop(Instr::Loop(body)),
        s.tape[s.pointer] != 0,
        in_time(run_loop(body, s)),
    ensures
        s.fuel >= 1,
        !clear(body, s.pointer) ==> run_loop(body, s) == run(
            body,
            State { fuel: (s.fuel - 1) as nat, ..s },
        ),
        clear(body, s.pointer) ==> s.fuel >= s.tape[s.pointer] && run_loop(body, s) == done(
            State {
                fuel: (s.fuel - s.tape[s.pointer]) as nat,
                ..placed(s, swept(body, s.tape, s.pointer, s.tape[s.pointer] as int), s.pointer)
            },
        ),
    decreases s.fuel,
{
    let c = s.tape[s.pointer] as int;
    let p = s.pointer;
    let entered = State { fuel: (s.fuel - 1) as nat, ..s };
    lemma_simple_run(body, entered);
    let r = run(body, entered);
    lemma_run_grows(body, entered);
    if clear(body, p) {
        lemma_swept_skimmed(body, s.tape, p, 1);
        lemma_counter_runs_out(c, counter_gain(body));
        assert(r.state.tape[p] == c - 1);
        if c - 1 != 0 {
            lemma_multiply_loop_run(body, r.state);
            lemma_swept_again(body, s.tape, p, c - 1);
        }
    }
}

/// A loop over a simple body reads and writes nothing, however it ends.
pub proof fn lemma_simple_loop_silent(body: Seq<Instr>, s: State)
    requires
        well_formed(s),
        is_simple(body),
    ensures
        same_bytes(run_loop(body, s).state, s),
    decreases s.fuel,
{
    if s.tape[s.pointer] != 0 && s.fuel != 0 {
        let entered = State { fuel: (s.fuel - 1) as nat, ..s };
        lemma_simple_run(body, entered);
        lemma_run_grows(body, entered);
        let r = run(body, entered);
        if r.fault is None {
            lemma_simple_loop_silent(body, r.state);
        }
    }
}

/// The loop that a multiply loop is converted into, entered with a pass
/// left in the budget: its one pass faults where a pass over the body
/// faults, or leaves the tape swept as many times as the counter held.
pub proof fn lemma_scaled_loop_run(body: Seq<Instr>, s: State)
    requires
        well_formed(s),
        is_multiply_loop(Instr::Loop(body)),
        s.tape[s.pointer] != 0,
        s.fuel >= 1,
    ensures
        !clear(body, s.pointer) ==> ({
            let entered = State { fuel: (s.fuel - 1) as nat, ..s };
            let r = run_loop(scaled_body(body).push(Instr::Zero(0)), s);
            r.fault == run(body, entered).fault && same_bytes(r.state, s) && r.state.fuel
                == s.fuel - 1
        }),
        clear(body, s.pointer) ==> run_loop(scaled_body(body).push(Instr::Zero(0)), s) == done(
            State {
                fuel: (s.fuel - 1) as nat,
                ..placed(s, swept(body, s.tape, s.pointer, s.tape[s.pointer] as int), s.pointer)
            },
        ),
{
    let c = s.tape[s.pointer] as int;
    let p = s.pointer;
    let whole = scaled_body(body).push(Instr::Zero(0));
    let entered = State { fuel: (s.fuel - 1) as nat, ..s };
    lemma_scaled_run(body, entered);
    lemma_simple_run(body, entered);
    lemma_run_push(scaled_body(body), Instr::Zero(0), entered);
    let r = run(whole, entered);
    if clear(body, p) {
        lemma_swept_skimmed(body, s.tape, p, c);
        lemma_counter_runs_out(c, counter_gain(body));
        assert(r.state.tape == swept(body, s.tape, p, c));
        assert(run_loop(whole, r.state) == done(r.state));
    }
}

/// Conversion keeps what an instruction does.
pub proof fn lemma_convert_step(i: Instr, s: State)
    requires
        well_formed(s),
    ensures
        kept(step(convert(i), s), step(i, s)),
    decreases i, s.fuel, 0int,
{
    match i {
        Instr::Loop(body) => {
            if is_multiply_loop(i) {
                if s.tape[s.pointer] != 0 {
                    if in_time(run_loop(body, s)) {
                        lemma_multiply_loop_run(body, s);
                        lemma_scaled_loop_run(body, s);
                        lemma_simple_run(body, State { fuel: (s.fuel - 1) as nat, ..s });
                    } else {
                        lemma_simple_loop_silent(body, s);
                        lemma_run_loop_writes(scaled_body(body).push(Instr::Zero(0)), s);
                    }
                }
            } else {
                lemma_convert_loop(body, s);
            }
        },
        _ => {},
    }
}

/// Conversion keeps what a loop does that is no multiply loop.
pub proof fn lemma_convert_loop(body: Seq<Instr>, s: State)
    requires
        well_formed(s),
    ensures
        kept(run_loop(convert_all(body), s), run_loop(body, s)),
    decreases body, s.fuel, 2int,
{
    let better = convert_all(body);
    if s.tape[s.pointer] != 0 && s.fuel != 0 {
        let entered = State { fuel: (s.fuel - 1) as nat, ..s };
        let ra = run(body, entered);
        let rb = run(better, entered);
        lemma_run_grows(body, entered);
        lemma_run_grows(better, entered);
        lemma_convert_run(body, entered);
        if ra.fault is None {
            let a = run_loop(body, ra.state);
            let c = run_loop(better, ra.state);
            let b = run_loop(better, rb.state);
            lemma_convert_loop(body, ra.state);
            let extra = (rb.state.fuel - ra.state.fuel) as nat;
            lemma_run_loop_refuelled(better, ra.state, extra);
            if !in_time(a) && !in_time(c) {
                lemma_extends_twice(b.state.output, c.state.output, a.state.output);
            }
        } else if !in_time(ra) && rb.fault is None {
            let b = run_loop(better, rb.state);
            lemma_run_loop_writes(better, rb.state);
            lemma_extends_twice(b.state.output, rb.state.output, ra.state.output);
        }
    }
}

/// Multiply-loop conversion keeps what a sequence does: where a run does not
/// stop for want of budget, the run of the converted sequence from the same
/// state ends in the same way, with the same bytes read and written and no
/// less of the budget left, and where they reach the end, in the same state
/// but for the budget. Where a run does stop for want of budget, it has
/// written the beginning of what the run of the converted sequence writes.
pub proof fn lemma_convert_run(code: Seq<Instr>, s: State)
    requires
        well_formed(s),
    ensures
        kept(run(convert_all(code), s), run(code, s)),
    decreases code, s.fuel, 1int,
{
    let better = convert_all(code);
    lemma_convert_all(code);
    if code.len() > 0 {
        let rest = code.drop_first();
        lemma_convert_all(rest);
        assert(better[0] == convert(code[0]));
        assert(better.drop_first() == convert_all(rest));
        let a1 = step(code[0], s);
        let b1 = step(convert(code[0]), s);
        lemma_step_grows(code[0], s);
        lemma_step_grows(convert(code[0]), s);
        lemma_convert_step(code[0], s);
        if a1.fault is None {
            let a = run(rest, a1.state);
            let c = run(convert_all(rest), a1.state);
            let b = run(convert_all(rest), b1.state);
            lemma_convert_run(rest, a1.state);
            let extra = (b1.state.fuel - a1.state.fuel) as nat;
            lemma_run_refuelled(convert_all(rest), a1.state, extra);
            if !in_time(a) && !in_time(c) {
                lemma_extends_twice(b.state.output, c.state.output, a.state.output);
            }
        } else if !in_time(a1) && b1.fault is None {
            let b = run(convert_all(rest), b1.state);
            lemma_run_writes(convert_all(rest), b1.state);
            lemma_extends_twice(b.state.output, b1.state.output, a1.state.output);
        }
    } else {
        assert(better == Seq::<Instr>::empty());
    }
}

} // verus!
