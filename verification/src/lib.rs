//! An optimizing interpreter for an eight-command tape language.
//!
//! A source text is parsed into a syntax tree ([`ast`]), lowered into an
//! instruction tree ([`ir`]), rewritten by two passes, and run on a tape of
//! bytes that grows to the right ([`machine`]). [`syntax`] and [`model`] say
//! what the trees are and what the passes do. The other modules state and
//! prove what holds of them: which texts are programs ([`brackets`],
//! [`folding`]), what the passes leave behind ([`coalescing`],
//! [`idempotence`], [`multiply_loops`], [`bounds`]), how the tape grows
//! ([`growth`]), and that the optimized program does what the program does
//! ([`preservation`]).

use vstd::prelude::*;

pub mod anchoring;
pub mod ast;
pub mod bounds;
pub mod brackets;
pub mod coalesced_runs;
pub mod coalescing;
pub mod converted_runs;
pub mod folding;
pub mod growth;
pub mod idempotence;
pub mod ir;
pub mod machine;
pub mod model;
pub mod multiply_loops;
pub mod preservation;
pub mod sequencing;
pub mod sweeps;
pub mod syntax;

use crate::bounds::lemma_program_optimizable;
use crate::brackets::balanced;
use crate::machine::{initial, run, Fault};
use crate::model::{lower_all, optimize};
use crate::syntax::{commands, parsed, SyntaxError};

verus! {

/// Why a text was not run to its end.
#[derive(Clone, Copy, Debug, PartialEq, Eq, Structural)]
pub enum Error {
    /// The text is no program.
    Syntax(SyntaxError),
    /// The run ended early.
    Fault(Fault),
}

/// Parses the text, optimizes the program and runs it on `input`. What the
/// program writes is put at the end of `output`.
///
/// A text whose brackets do not balance is not run at all.
pub fn interpret(src: String, input: &[u8], output: &mut Vec<u8>) -> (res: Result<(), Error>)
    requires
        src@.len() <= i32::MAX,
    ensures
        res is Err && res->Err_0 is Syntax <==> !balanced(commands(src@)),
        match parsed(commands(src@)) {
            Err(e) => res == Err::<(), Error>(Error::Syntax(e)) && final(output)@ == old(output)@,
            Ok(trees) => {
                let end = run(optimize(lower_all(trees)), initial(input@, u64::MAX as nat));
                &&& res == match end.fault {
                    None => Ok::<(), Error>(()),
                    Some(f) => Err::<(), Error>(Error::Fault(f)),
                }
                &&& final(output)@ == old(output)@ + end.state.output
            },
        },
{
    let ghost text = src@;
    match ast::parse(src) {
        Err(e) => Err(Error::Syntax(e)),
        Ok(tree) => {
            proof {
                lemma_program_optimizable(text);
            }
            let program = ir::Program::from_ast(&tree, true);
            match program.execute(input, output) {
                Ok(()) => Ok(()),
                Err(f) => Err(Error::Fault(f)),
            }
        },
    }
}

} // verus!
