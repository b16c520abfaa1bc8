//! What holds of the tape and of the budget in the course of every run.

use vstd::prelude::*;
use crate::machine::{
    address_fault, cell, initial, run, run_loop, step, tape_limit, touched, well_formed, Fault, State,
};
use crate::model::Instr;

verus! {

/// The bytes `later` begin with the bytes `sooner`.
pub open spec fn extends(later: Seq<u8>, sooner: Seq<u8>) -> bool {
    &&& sooner.len() <= later.len()
    &&& forall|k: int| 0 <= k < sooner.len() ==> #[trigger] sooner[k] == later[k]
}

/// What begins with bytes that begin with others begins with those.
pub proof fn lemma_extends_twice(last: Seq<u8>, later: Seq<u8>, sooner: Seq<u8>)
    requires
        extends(last, later),
        extends(later, sooner),
    ensures
        extends(last, sooner),
{
    assert forall|k: int| 0 <= k < sooner.len() implies #[trigger] sooner[k] == last[k] by {
        assert(sooner[k] == later[k]);
        assert(later[k] == last[k]);
    }
}

/// `later` can be reached from `sooner`: the tape is no shorter, the highest
/// address is no lower, and the budget is no larger.
pub open spec fn follows(later: State, sooner: State) -> bool {
    &&& later.tape.len() >= sooner.tape.len()
    &&& later.peak >= sooner.peak
    &&& later.fuel <= sooner.fuel
}

/// The state in which a run starts is well formed.
pub proof fn lemma_initial_well_formed(input: Seq<u8>, fuel: nat)
    ensures
        well_formed(initial(input, fuel)),
{
}

/// Tape growth, for one address: an address at or to the right of cell 0 is
/// never refused as out of bounds. Short of what a tape can hold, it is
/// resolved, and the tape then holds the cell.
pub proof fn lemma_forward_address(s: State, at: int)
    requires
        well_formed(s),
        0 <= at,
    ensures
        address_fault(at) != Some(Fault::NegativeAddress),
        at < tape_limit() ==> address_fault(at) is None && at < touched(s, at).tape.len()
            && well_formed(touched(s, at)) && follows(touched(s, at), s) && touched(
            s,
            at,
        ).tape.len() <= tape_limit(),
{
}

/// Tape growth, for one instruction: from a state whose tape ends with the
/// highest cell addressed so far, an instruction leaves such a state, whether
/// it is carried out or faults. The tape never shrinks and the budget never
/// grows.
pub proof fn lemma_step_grows(i: Instr, s: State)
    requires
        well_formed(s),
    ensures
        well_formed(step(i, s).state),
        follows(step(i, s).state, s),
    decreases i, s.fuel, 0int,
{
    match i {
        Instr::Loop(body) => {
            lemma_run_loop_grows(body, s);
        },
        Instr::AddMult(o, m, _) => {
            let at = s.pointer + o;
            let from = s.pointer + m;
            if address_fault(at) is None {
                lemma_forward_address(s, at);
                if address_fault(from) is None {
                    lemma_forward_address(touched(s, at), from);
                }
            }
        },
        Instr::Shift(o) | Instr::AddConst(o, _) | Instr::Zero(o) | Instr::Output(o) | Instr::Input(
            o,
        ) => {
            let at = s.pointer + o;
            if address_fault(at) is None {
                lemma_forward_address(s, at);
            }
        },
    }
}

/// Tape growth, for a loop.
pub proof fn lemma_run_loop_grows(body: Seq<Instr>, s: State)
    requires
        well_formed(s),
    ensures
        well_formed(run_loop(body, s).state),
        follows(run_loop(body, s).state, s),
    decreases body, s.fuel, 2int,
{
    if s.tape[s.pointer] != 0 && s.fuel != 0 {
        let entered = State { fuel: (s.fuel - 1) as nat, ..s };
        lemma_run_grows(body, entered);
        let r = run(body, entered);
        if r.fault is None {
            lemma_run_loop_grows(body, r.state);
        }
    }
}

/// Tape growth: accessing a cell never goes beyond the tape, and after any
/// run the tape is exactly one cell longer than the highest address that
/// was ever resolved.
pub proof fn lemma_run_grows(code: Seq<Instr>, s: State)
    requires
        well_formed(s),
    ensures
        well_formed(run(code, s).state),
        follows(run(code, s).state, s),
    decreases code, s.fuel, 1int,
{
    if code.len() > 0 {
        lemma_step_grows(code[0], s);
        let r = step(code[0], s);
        if r.fault is None {
            lemma_run_grows(code.drop_first(), r.state);
        }
    }
}

/// Nothing that was written is taken back, by one instruction.
pub proof fn lemma_step_writes(i: Instr, s: State)
    ensures
        extends(step(i, s).state.output, s.output),
    decreases i, s.fuel, 0int,
{
    match i {
        Instr::Loop(body) => {
            lemma_run_loop_writes(body, s);
        },
        Instr::Output(o) => {
            assert(step(i, s).state.output == s.output || step(i, s).state.output
                == s.output.push(touched(s, s.pointer + o).tape[s.pointer + o]));
        },
        Instr::Shift(_) => {
            assert(step(i, s).state.output == s.output);
        },
        Instr::AddConst(_, _) => {
            assert(step(i, s).state.output == s.output);
        },
        Instr::AddMult(_, _, _) => {
            assert(step(i, s).state.output == s.output);
        },
        Instr::Zero(_) => {
            assert(step(i, s).state.output == s.output);
        },
        Instr::Input(_) => {
            assert(step(i, s).state.output == s.output);
        },
    }
}

/// Nothing that was written is taken back, by a loop.
pub proof fn lemma_run_loop_writes(body: Seq<Instr>, s: State)
    ensures
        extends(run_loop(body, s).state.output, s.output),
    decreases body, s.fuel, 2int,
{
    if cell(s.tape, s.pointer) != 0 && s.fuel != 0 {
        let entered = State { fuel: (s.fuel - 1) as nat, ..s };
        lemma_run_writes(body, entered);
        let r = run(body, entered);
        if r.fault is None {
            if r.state.fuel < s.fuel {
                lemma_run_loop_writes(body, r.state);
            } else {
                lemma_run_loop_writes(body, State { fuel: (s.fuel - 1) as nat, ..r.state });
            }
        }
    }
}

/// Nothing that was written is taken back: what a run has written begins
/// with what was written before it.
pub proof fn lemma_run_writes(code: Seq<Instr>, s: State)
    ensures
        extends(run(code, s).state.output, s.output),
    decreases code, s.fuel, 1int,
{
    if code.len() > 0 {
        lemma_step_writes(code[0], s);
        let r = step(code[0], s);
        if r.fault is None {
            lemma_run_writes(code.drop_first(), r.state);
        }
    }
}

/// Tape growth, for a whole program: when a program has run, or has faulted,
/// the tape is exactly one cell longer than the highest address that was
/// resolved in the run.
pub proof fn lemma_tape_ends_at_peak(code: Seq<Instr>, input: Seq<u8>, fuel: nat)
    ensures
        run(code, initial(input, fuel)).state.tape.len() == run(
            code,
            initial(input, fuel),
        ).state.peak + 1,
{
    lemma_run_grows(code, initial(input, fuel));
}

} // verus!
