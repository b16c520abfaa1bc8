//! The optimized program does what the program does.

use vstd::prelude::*;
use crate::anchoring::{lemma_convert_anchored, lemma_parsed_primal, primal};
use crate::coalesced_runs::{lemma_coalesce_run, same_cells};
use crate::converted_runs::{calm, lemma_convert_run};
use crate::growth::{extends, lemma_initial_well_formed};
use crate::machine::{cell, initial, run, well_formed, State};
use crate::model::{convert_all, lower_all, optimize, Instr};
use crate::sequencing::in_time;
use crate::syntax::{commands, parsed};

verus! {

/// Semantics preservation, from any state: where the run of a sequence
/// reaches its end, or stops for want of input, the run of the optimized
/// sequence ends in the same way, has read and written the same bytes, and
/// has no less of its budget left. Where they reach the end, the pointer is
/// on the same cell and the cells hold the same values.
pub proof fn lemma_optimize_run(code: Seq<Instr>, s: State)
    requires
        well_formed(s),
        calm(run(code, s)),
    ensures
        run(optimize(code), s).fault == run(code, s).fault,
        run(optimize(code), s).state.output == run(code, s).state.output,
        run(optimize(code), s).state.input == run(code, s).state.input,
        run(optimize(code), s).state.fuel >= run(code, s).state.fuel,
        run(code, s).fault is None ==> run(optimize(code), s).state.pointer == run(
            code,
            s,
        ).state.pointer && same_cells(run(optimize(code), s).state.tape, run(code, s).state.tape),
{
    let plain = run(code, s);
    let converted = run(convert_all(code), s);
    let optimized = run(optimize(code), s);
    lemma_convert_run(code, s);
    assert forall|x: int| #[trigger] cell(s.tape, x) == cell(s.tape, x) by {}
    lemma_coalesce_run(convert_all(code), s, s);
    if plain.fault is None {
        assert forall|x: int| #[trigger] cell(optimized.state.tape, x) == cell(
            plain.state.tape,
            x,
        ) by {
            assert(cell(converted.state.tape, x) == cell(optimized.state.tape, x));
        }
    }
}

/// Semantics preservation, for a primal sequence from any state: where the
/// run does not stop for want of budget, the run of the optimized sequence
/// ends in the same way, be it at the end or at a fault, and has read and
/// written the same bytes. Where it does, it has written the beginning of
/// what the run of the optimized sequence writes.
pub proof fn lemma_optimize_primal_run(code: Seq<Instr>, s: State)
    requires
        well_formed(s),
        primal(code),
    ensures
        in_time(run(code, s)) ==> {
            &&& run(optimize(code), s).fault == run(code, s).fault
            &&& run(optimize(code), s).state.output == run(code, s).state.output
            &&& run(optimize(code), s).state.input == run(code, s).state.input
            &&& run(optimize(code), s).state.fuel >= run(code, s).state.fuel
        },
        extends(run(optimize(code), s).state.output, run(code, s).state.output),
{
    lemma_convert_run(code, s);
    lemma_convert_anchored(code);
    assert forall|x: int| #[trigger] cell(s.tape, x) == cell(s.tape, x) by {}
    lemma_coalesce_run(convert_all(code), s, s);
}

/// Semantics preservation: for every program text, every input and every
/// budget, where the run of the lowered program does not stop for want of
/// budget, the run of the optimized program ends in the same way, be it at
/// the end or at a fault, and has written the same bytes. Where the run of
/// the lowered program does stop for want of budget, the optimized program,
/// which needs less of it, has written the same bytes and may have written
/// more.
pub proof fn lemma_optimized_program_writes_the_same(text: Seq<char>, input: Seq<u8>, fuel: nat)
    requires
        parsed(commands(text)) is Ok,
    ensures
        ({
            let code = lower_all(parsed(commands(text))->Ok_0);
            let plain = run(code, initial(input, fuel));
            let optimized = run(optimize(code), initial(input, fuel));
            &&& in_time(plain) ==> optimized.fault == plain.fault && optimized.state.output
                == plain.state.output
            &&& extends(optimized.state.output, plain.state.output)
        }),
{
    lemma_initial_well_formed(input, fuel);
    lemma_parsed_primal(commands(text));
    lemma_optimize_primal_run(lower_all(parsed(commands(text))->Ok_0), initial(input, fuel));
}

} // verus!
