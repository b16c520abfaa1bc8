//! How runs compose: one sequence after another, and a run with a larger budget.

use vstd::prelude::*;
use crate::growth::{
    extends, lemma_run_grows, lemma_run_loop_writes, lemma_run_writes, lemma_step_grows,
};
use crate::machine::{run, run_loop, step, well_formed, Fault, Outcome, State};
use crate::model::Instr;

verus! {

/// What is left to do after the outcome `first`: nothing after a fault,
/// else `code` from the state it left.
pub open spec fn then_run(first: Outcome, code: Seq<Instr>) -> Outcome {
    if first.fault is Some {
        first
    } else {
        run(code, first.state)
    }
}

/// Running two sequences one after the other is running the first and then
/// the second.
pub proof fn lemma_run_append(a: Seq<Instr>, b: Seq<Instr>, s: State)
    ensures
        run(a + b, s) == then_run(run(a, s), b),
    decreases a.len(),
{
    if a.len() == 0 {
        assert(a + b == b);
    } else {
        assert((a + b)[0] == a[0]);
        assert((a + b).drop_first() == a.drop_first() + b);
        let r = step(a[0], s);
        if r.fault is None {
            lemma_run_append(a.drop_first(), b, r.state);
        }
    }
}

/// Running a sequence of one instruction is carrying that instruction out.
pub proof fn lemma_run_one(i: Instr, s: State)
    ensures
        run(seq![i], s) == step(i, s),
{
    assert(seq![i].drop_first() == Seq::<Instr>::empty());
    assert(seq![i][0] == i);
    let r = step(i, s);
    if r.fault is None {
        assert(run(Seq::<Instr>::empty(), r.state) == r);
    }
}

/// Running a sequence with one more instruction at its end.
pub proof fn lemma_run_push(a: Seq<Instr>, i: Instr, s: State)
    ensures
        run(a.push(i), s) == if run(a, s).fault is Some {
            run(a, s)
        } else {
            step(i, run(a, s).state)
        },
{
    assert(a.push(i) == a + seq![i]);
    lemma_run_append(a, seq![i], s);
    lemma_run_one(i, run(a, s).state);
}

/// The state with `extra` more loop passes to spend.
pub open spec fn refuelled(s: State, extra: nat) -> State {
    State { fuel: s.fuel + extra, ..s }
}

/// The outcome with `extra` more loop passes left.
pub open spec fn refuelled_outcome(o: Outcome, extra: nat) -> Outcome {
    Outcome { fault: o.fault, state: refuelled(o.state, extra) }
}

/// The run did not stop for want of budget.
pub open spec fn in_time(o: Outcome) -> bool {
    o.fault != Some(Fault::StepLimit)
}

/// The outcome `more` is what a run comes to that came to `less` with a
/// smaller budget: the same with more of the budget left, or, where the
/// budget was used up, one that has written what `less` has written and
/// may have written more.
pub open spec fn carried_on(more: Outcome, less: Outcome, extra: nat) -> bool {
    if in_time(less) {
        more == refuelled_outcome(less, extra)
    } else {
        extends(more.state.output, less.state.output)
    }
}

/// A larger budget, for one instruction.
pub proof fn lemma_step_refuelled(i: Instr, s: State, extra: nat)
    requires
        well_formed(s),
    ensures
        carried_on(step(i, refuelled(s, extra)), step(i, s), extra),
    decreases i, s.fuel, 0int,
{
    match i {
        Instr::Loop(body) => {
            lemma_run_loop_refuelled(body, s, extra);
        },
        _ => {},
    }
}

/// A larger budget, for a loop.
pub proof fn lemma_run_loop_refuelled(body: Seq<Instr>, s: State, extra: nat)
    requires
        well_formed(s),
    ensures
        carried_on(run_loop(body, refuelled(s, extra)), run_loop(body, s), extra),
    decreases body, s.fuel, 2int,
{
    let more = refuelled(s, extra);
    lemma_run_loop_writes(body, more);
    if s.tape[s.pointer] != 0 && s.fuel != 0 {
        let entered = State { fuel: (s.fuel - 1) as nat, ..s };
        let r = run(body, entered);
        let entered_more = refuelled(entered, extra);
        let r_more = run(body, entered_more);
        lemma_run_grows(body, entered);
        lemma_run_grows(body, entered_more);
        assert(entered_more == State { fuel: (more.fuel - 1) as nat, ..more });
        lemma_run_refuelled(body, entered, extra);
        if r.fault is None {
            lemma_run_loop_refuelled(body, r.state, extra);
        } else if r_more.fault is None {
            lemma_run_loop_writes(body, r_more.state);
        }
    }
}

/// A larger budget: a run that did not end for want of budget ends in the
/// same way with a larger one, with as much more of it left. One that did
/// has written the beginning of what the run with the larger budget writes.
pub proof fn lemma_run_refuelled(code: Seq<Instr>, s: State, extra: nat)
    requires
        well_formed(s),
    ensures
        carried_on(run(code, refuelled(s, extra)), run(code, s), extra),
    decreases code, s.fuel, 1int,
{
    if code.len() > 0 {
        let r = step(code[0], s);
        let r_more = step(code[0], refuelled(s, extra));
        lemma_step_grows(code[0], s);
        lemma_step_grows(code[0], refuelled(s, extra));
        lemma_step_refuelled(code[0], s, extra);
        if r.fault is None {
            lemma_run_refuelled(code.drop_first(), r.state, extra);
        } else if r_more.fault is None {
            lemma_run_writes(code.drop_first(), r_more.state);
        }
    }
}

} // verus!
