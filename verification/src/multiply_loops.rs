//! What is never a multiply loop.

use vstd::prelude::*;
use crate::model::{is_multiply_loop, net_shift, Instr};

verus! {

/// A loop whose body holds anything but movements and additions, be it a
/// nested loop, an `Input`, an `Output`, a `Zero` or a multiply-accumulate,
/// is no multiply loop.
pub proof fn lemma_only_simple_bodies(body: Seq<Instr>, k: int)
    requires
        0 <= k < body.len(),
        !(body[k] is Shift || body[k] is AddConst),
    ensures
        !is_multiply_loop(Instr::Loop(body)),
{
}

/// A loop whose body leaves the pointer elsewhere than it found it is no
/// multiply loop.
pub proof fn lemma_only_returning_bodies(body: Seq<Instr>)
    requires
        net_shift(body) != 0,
    ensures
        !is_multiply_loop(Instr::Loop(body)),
{
}

/// Nothing but a loop is a multiply loop.
pub proof fn lemma_only_loops(i: Instr)
    requires
        !(i is Loop),
    ensures
        !is_multiply_loop(i),
{
}

} // verus!
