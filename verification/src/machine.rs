//! What it means to run an instruction tree: the state of one run, and the
//! state that each instruction leaves behind.
//!
//! A run works within a budget of loop passes, so that every run ends: each
//! pass through a loop body takes one from the budget, and a loop that finds
//! the budget empty ends the run with [`Fault::StepLimit`].

use vstd::prelude::*;
use vstd::arithmetic::div_mod::{lemma_add_mod_noop, lemma_mul_mod_noop_right};
use crate::ir::{lift_all, low_byte, Node};
use crate::model::Instr;

verus! {

/// Why a run ended before the end of its program.
#[derive(Clone, Copy, Debug, PartialEq, Eq, Structural)]
pub enum Fault {
    /// An instruction addressed a cell to the left of cell 0.
    NegativeAddress,
    /// An instruction addressed a cell beyond what a tape can hold.
    TapeLimit,
    /// An `Input` found no byte left to read.
    EndOfInput,
    /// A loop was about to start a pass with the budget used up.
    StepLimit,
}

/// The state of one run.
pub struct State {
    /// The cells, from cell 0 on. Cells beyond the end are zero.
    pub tape: Seq<u8>,
    /// The cell that offsets are counted from.
    pub pointer: int,
    /// The highest address that was resolved so far.
    pub peak: int,
    /// The bytes not yet read.
    pub input: Seq<u8>,
    /// The bytes written so far.
    pub output: Seq<u8>,
    /// The loop passes that may still be started.
    pub fuel: nat,
}

/// How a run, or a part of one, ended, and the state it left.
pub struct Outcome {
    /// `None` where the instructions were carried out to the end.
    pub fault: Option<Fault>,
    /// The state at the end, or at the instruction that could not be carried out.
    pub state: State,
}

/// The state in which every run starts: one zero cell, the pointer on it.
pub open spec fn initial(input: Seq<u8>, fuel: nat) -> State {
    State { tape: seq![0u8], pointer: 0, peak: 0, input, output: Seq::empty(), fuel }
}

/// The largest number of cells a tape can have.
pub open spec fn tape_limit() -> int {
    usize::MAX as int
}

/// The pointer is on the tape, and the tape ends with the highest cell that
/// was addressed.
pub open spec fn well_formed(s: State) -> bool {
    &&& 0 <= s.pointer < s.tape.len()
    &&& s.tape.len() == s.peak + 1
    &&& s.tape.len() <= tape_limit()
}

/// The value of the cell at `at`: cells that the tape does not hold are zero.
pub open spec fn cell(tape: Seq<u8>, at: int) -> u8 {
    if 0 <= at < tape.len() {
        tape[at]
    } else {
        0
    }
}

/// The tape made long enough to hold cell `at`, by zero cells at its end.
pub open spec fn grown(tape: Seq<u8>, at: int) -> Seq<u8> {
    if at < tape.len() {
        tape
    } else {
        tape + Seq::new((at + 1 - tape.len()) as nat, |k: int| 0u8)
    }
}

/// A byte plus any integer, as a byte.
pub open spec fn wrap(v: int) -> u8 {
    (v % 256) as u8
}

/// The outcome of what was carried out to the end.
pub open spec fn done(s: State) -> Outcome {
    Outcome { fault: None, state: s }
}

/// The outcome of what a fault has stopped.
pub open spec fn failed(f: Fault, s: State) -> Outcome {
    Outcome { fault: Some(f), state: s }
}

/// Why `at` cannot be resolved, if it cannot.
pub open spec fn address_fault(at: int) -> Option<Fault> {
    if at < 0 {
        Some(Fault::NegativeAddress)
    } else if at >= tape_limit() {
        Some(Fault::TapeLimit)
    } else {
        None
    }
}

/// The state after address `at` was resolved: the tape holds that cell.
pub open spec fn touched(s: State, at: int) -> State {
    State { tape: grown(s.tape, at), peak: if at > s.peak { at } else { s.peak }, ..s }
}

/// The state with the cell at `at` set to `v`.
pub open spec fn stored(s: State, at: int, v: u8) -> State {
    State { tape: s.tape.update(at, v), ..s }
}

/// The state that a single instruction leaves, or the fault that stops it.
pub open spec fn step(i: Instr, s: State) -> Outcome
    decreases i, s.fuel, 0int,
{
    match i {
        Instr::Loop(body) => run_loop(body, s),
        Instr::Shift(d) => {
            let at = s.pointer + d;
            match address_fault(at) {
                Some(f) => failed(f, s),
                None => done(State { pointer: at, ..touched(s, at) }),
            }
        },
        Instr::AddConst(o, a) => {
            let at = s.pointer + o;
            match address_fault(at) {
                Some(f) => failed(f, s),
                None => {
                    let t = touched(s, at);
                    done(stored(t, at, wrap(t.tape[at] + a)))
                },
            }
        },
        Instr::AddMult(o, m, a) => {
            let at = s.pointer + o;
            let from = s.pointer + m;
            match address_fault(at) {
                Some(f) => failed(f, s),
                None => {
                    let t = touched(s, at);
                    match address_fault(from) {
                        Some(f) => failed(f, t),
                        None => {
                            let u = touched(t, from);
                            done(stored(u, at, wrap(u.tape[at] + u.tape[from] * a)))
                        },
                    }
                },
            }
        },
        Instr::Zero(o) => {
            let at = s.pointer + o;
            match address_fault(at) {
                Some(f) => failed(f, s),
                None => done(stored(touched(s, at), at, 0u8)),
            }
        },
        Instr::Output(o) => {
            let at = s.pointer + o;
            match address_fault(at) {
                Some(f) => failed(f, s),
                None => {
                    let t = touched(s, at);
                    done(State { output: t.output.push(t.tape[at]), ..t })
                },
            }
        },
        Instr::Input(o) => {
            let at = s.pointer + o;
            match address_fault(at) {
                Some(f) => failed(f, s),
                None => {
                    let t = touched(s, at);
                    if t.input.len() == 0 {
                        failed(Fault::EndOfInput, t)
                    } else {
                        done(State { input: t.input.drop_first(), ..stored(t, at, t.input[0]) })
                    }
                },
            }
        },
    }
}

/// The state that a loop over `body` leaves when it is reached in state `s`.
///
/// In a well-formed state the pointer is on the tape, so the cell under it is
/// read without growing the tape. A pass never adds to the budget, so the
/// budget of the next pass is the one that the pass before it left.
pub open spec fn run_loop(body: Seq<Instr>, s: State) -> Outcome
    decreases body, s.fuel, 2int,
{
    if cell(s.tape, s.pointer) == 0 {
        done(s)
    } else if s.fuel == 0 {
        failed(Fault::StepLimit, s)
    } else {
        let r = run(body, State { fuel: (s.fuel - 1) as nat, ..s });
        if r.fault is Some {
            r
        } else if r.state.fuel < s.fuel {
            run_loop(body, r.state)
        } else {
            run_loop(body, State { fuel: (s.fuel - 1) as nat, ..r.state })
        }
    }
}

/// The state that the instructions of `code` leave, carried out in order from
/// state `s`, or the first fault and the state in which it came.
pub open spec fn run(code: Seq<Instr>, s: State) -> Outcome
    decreases code, s.fuel, 1int,
{
    if code.len() == 0 {
        done(s)
    } else {
        let r = step(code[0], s);
        if r.fault is Some {
            r
        } else {
            run(code.drop_first(), r.state)
        }
    }
}

/// What a caller is told of an outcome.
pub open spec fn verdict(o: Outcome) -> Result<(), Fault> {
    match o.fault {
        Some(f) => Err(f),
        None => Ok(()),
    }
}

/// The tape, the pointer, the two byte streams and the budget of one run.
pub struct Machine<'a> {
    tape: Vec<u8>,
    pointer: usize,
    input: &'a [u8],
    cursor: usize,
    output: Vec<u8>,
    fuel: u64,
}

impl<'a> View for Machine<'a> {
    type V = State;

    closed spec fn view(&self) -> State {
        State {
            tape: self.tape@,
            pointer: self.pointer as int,
            peak: self.tape.len() - 1,
            input: self.input@.skip(self.cursor as int),
            output: self.output@,
            fuel: self.fuel as nat,
        }
    }
}

impl<'a> Machine<'a> {
    /// What holds of every machine between two instructions.
    pub closed spec fn wf(&self) -> bool {
        &&& self.pointer < self.tape.len()
        &&& self.cursor <= self.input.len()
    }

    /// A machine at the start of a run over `input`, with `fuel` loop passes to spend.
    pub fn new(input: &'a [u8], fuel: u64) -> (m: Self)
        ensures
            m.wf(),
            m@ == initial(input@, fuel as nat),
    {
        let mut tape: Vec<u8> = Vec::new();
        tape.push(0u8);
        let m = Machine { tape, pointer: 0, input, cursor: 0, output: Vec::new(), fuel };
        assert(m.tape@ == seq![0u8]);
        assert(input@.skip(0) == input@);
        m
    }

    /// The cells of the tape.
    pub fn tape(&self) -> (t: &Vec<u8>)
        ensures
            t@ == self@.tape,
    {
        &self.tape
    }

    /// The index of the cell under the pointer.
    pub fn pointer(&self) -> (p: usize)
        ensures
            p == self@.pointer,
    {
        self.pointer
    }

    /// The bytes written so far.
    pub fn output(&self) -> (out: &Vec<u8>)
        ensures
            out@ == self@.output,
    {
        &self.output
    }

    /// The loop passes that may still be started.
    pub fn fuel(&self) -> (f: u64)
        ensures
            f == self@.fuel,
    {
        self.fuel
    }

    /// Gives the machine up for the bytes it has written.
    pub fn into_output(self) -> (out: Vec<u8>)
        ensures
            out@ == self@.output,
    {
        self.output
    }

    /// The address `offset` cells from the pointer, with the tape grown by
    /// zero cells until it holds that address.
    ///
    /// An address below zero, or one that no tape can hold, is a fault and
    /// leaves the machine as it was.
    pub fn resolve(&mut self, offset: isize) -> (res: Result<usize, Fault>)
        requires
            old(self).wf(),
        ensures
            final(self).wf(),
            match address_fault(old(self)@.pointer + offset) {
                Some(f) => res == Err::<usize, Fault>(f) && final(self)@ == old(self)@,
                None => res == Ok::<usize, Fault>((old(self)@.pointer + offset) as usize)
                    && final(self)@ == touched(old(self)@, old(self)@.pointer + offset),
            },
            res is Ok ==> res->Ok_0 < final(self)@.tape.len(),
    {
        let at: usize;
        if offset >= 0 {
            let ahead: usize = offset as usize;
            if ahead >= usize::MAX - self.pointer {
                return Err(Fault::TapeLimit);
            }
            at = self.pointer + ahead;
        } else {
            let back: usize = (-(offset + 1)) as usize + 1;
            if back > self.pointer {
                return Err(Fault::NegativeAddress);
            }
            at = self.pointer - back;
        }
        let ghost before = self.tape@;
        while self.tape.len() <= at
            invariant
                at < usize::MAX,
                self.pointer == old(self).pointer,
                self.cursor == old(self).cursor,
                self.input == old(self).input,
                self.output == old(self).output,
                self.fuel == old(self).fuel,
                before == old(self).tape@,
                before.len() <= self.tape.len(),
                self.tape.len() <= before.len() || self.tape.len() <= at + 1,
                self.tape@ == before + Seq::new(
                    (self.tape.len() - before.len()) as nat,
                    |k: int| 0u8,
                ),
            decreases at + 1 - self.tape.len(),
        {
            self.tape.push(0u8);
        }
        assert(self.tape@ == grown(before, at as int));
        Ok(at)
    }

    /// Carries out one instruction.
    pub fn step(&mut self, n: &Node) -> (res: Result<(), Fault>)
        requires
            old(self).wf(),
        ensures
            final(self).wf(),
            final(self)@ == step(n@, old(self)@).state,
            res == verdict(step(n@, old(self)@)),
            final(self)@.fuel <= old(self)@.fuel,
        decreases n,
    {
        match n {
            Node::Loop(body) => {
                let ghost start = self@;
                assert(n@ == Instr::Loop(lift_all(body@)));
                while self.tape[self.pointer] != 0
                    invariant
                        self.wf(),
                        start == old(self)@,
                        *n == Node::Loop(*body),
                        n@ == Instr::Loop(lift_all(body@)),
                        self@.fuel <= start.fuel,
                        run_loop(lift_all(body@), self@) == run_loop(lift_all(body@), start),
                    decreases self.fuel,
                {
                    if self.fuel == 0 {
                        return Err(Fault::StepLimit);
                    }
                    self.fuel = self.fuel - 1;
                    match self.run(body) {
                        Err(f) => {
                            return Err(f);
                        },
                        Ok(()) => {},
                    }
                }
                Ok(())
            },
            Node::Move(d) => {
                match self.resolve(*d) {
                    Err(f) => Err(f),
                    Ok(at) => {
                        self.pointer = at;
                        Ok(())
                    },
                }
            },
            Node::AddConst(o, a) => {
                match self.resolve(*o) {
                    Err(f) => Err(f),
                    Ok(at) => {
                        let b = low_byte(*a);
                        let v: u16 = (self.tape[at] as u16 + b as u16) % 256;
                        proof {
                            lemma_add_mod_noop(self.tape[at as int] as int, *a as int, 256);
                        }
                        self.tape.set(at, v as u8);
                        Ok(())
                    },
                }
            },
            Node::AddMult(o, m, a) => {
                match self.resolve(*o) {
                    Err(f) => Err(f),
                    Ok(at) => {
                        match self.resolve(*m) {
                            Err(f) => Err(f),
                            Ok(from) => {
                                let b = low_byte(*a);
                                let x = self.tape[at];
                                let y = self.tape[from];
                                assert(y as int * b as int <= 255 * 255) by (nonlinear_arith)
                                    requires
                                        0 <= y <= 255,
                                        0 <= b <= 255,
                                ;
                                let v: u32 = (x as u32 + y as u32 * b as u32) % 256;
                                proof {
                                    lemma_mul_mod_noop_right(y as int, *a as int, 256);
                                    lemma_add_mod_noop(x as int, y as int * (b as int), 256);
                                    lemma_add_mod_noop(x as int, y as int * (*a as int), 256);
                                }
                                self.tape.set(at, v as u8);
                                Ok(())
                            },
                        }
                    },
                }
            },
            Node::Zero(o) => {
                match self.resolve(*o) {
                    Err(f) => Err(f),
                    Ok(at) => {
                        self.tape.set(at, 0u8);
                        Ok(())
                    },
                }
            },
            Node::Output(o) => {
                match self.resolve(*o) {
                    Err(f) => Err(f),
                    Ok(at) => {
                        let v = self.tape[at];
                        self.output.push(v);
                        Ok(())
                    },
                }
            },
            Node::Input(o) => {
                match self.resolve(*o) {
                    Err(f) => Err(f),
                    Ok(at) => {
                        if self.cursor < self.input.len() {
                            let v = self.input[self.cursor];
                            proof {
                                let rest = self.input@.skip(self.cursor as int);
                                assert(rest[0] == v);
                                assert(rest.drop_first() == self.input@.skip(self.cursor + 1));
                            }
                            self.tape.set(at, v);
                            self.cursor = self.cursor + 1;
                            Ok(())
                        } else {
                            Err(Fault::EndOfInput)
                        }
                    },
                }
            },
        }
    }

    /// Carries out the instructions in order, up to the first fault.
    pub fn run(&mut self, ns: &Vec<Node>) -> (res: Result<(), Fault>)
        requires
            old(self).wf(),
        ensures
            final(self).wf(),
            final(self)@ == run(lift_all(ns@), old(self)@).state,
            res == verdict(run(lift_all(ns@), old(self)@)),
            final(self)@.fuel <= old(self)@.fuel,
        decreases ns,
    {
        let ghost code = lift_all(ns@);
        let ghost start = self@;
        proof {
            crate::ir::lemma_lift_all(ns@);
        }
        let mut k: usize = 0;
        assert(code.skip(0) == code);
        while k < ns.len()
            invariant
                k <= ns.len(),
                self.wf(),
                start == old(self)@,
                code == lift_all(ns@),
                code.len() == ns.len(),
                forall|j: int| 0 <= j < ns.len() ==> #[trigger] code[j] == crate::ir::lift(ns[j]),
                self@.fuel <= start.fuel,
                run(code.skip(k as int), self@) == run(code, start),
            decreases ns.len() - k,
        {
            proof {
                assert(code.skip(k as int)[0] == code[k as int]);
                assert(code.skip(k as int).drop_first() == code.skip(k as int + 1));
            }
            match self.step(&ns[k]) {
                Err(f) => {
                    return Err(f);
                },
                Ok(()) => {},
            }
            k += 1;
        }
        Ok(())
    }
}

} // verus!
