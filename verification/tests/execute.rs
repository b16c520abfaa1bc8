use brainfuck::ast;
use brainfuck::ir::Node::{AddConst, AddMult, Input, Loop, Move, Output, Zero};
use brainfuck::ir::Program;
use brainfuck::machine::{Fault, Machine};
use brainfuck::syntax::SyntaxError;
use brainfuck::{interpret, Error};

fn lowered(src: &str) -> Program {
    Program::from_ast(&ast::parse(String::from(src)).unwrap(), false)
}

fn run(src: &str, input: &[u8]) -> (Result<(), Error>, Vec<u8>) {
    let mut out = Vec::new();
    let res = interpret(String::from(src), input, &mut out);
    (res, out)
}

#[test]
fn four_times_four() {
    assert_eq!(run("++++[>++++<-]>.", &[]), (Ok(()), vec![16]));
}

#[test]
fn a_byte_is_passed_through() {
    assert_eq!(run(",.", &[65]), (Ok(()), vec![65]));
}

#[test]
fn an_unbalanced_text_is_not_run() {
    assert_eq!(run("[", &[]), (Err(Error::Syntax(SyntaxError::UnmatchedOpen)), vec![]));
    assert_eq!(run(".+.]", &[]), (Err(Error::Syntax(SyntaxError::UnmatchedClose)), vec![]));
}

#[test]
fn printable_bytes_by_wrapping_arithmetic() {
    let mut m = Machine::new(&[], 1000);
    assert_eq!(m.run(&lowered("+++++[>++++++++<-]>+++++++.---").0), Ok(()));
    assert_eq!(m.output(), &vec![47]);
    assert_eq!(m.run(&lowered(".").0), Ok(()));
    assert_eq!(m.run(&lowered("---").0), Ok(()));
    assert_eq!(m.run(&lowered(".").0), Ok(()));
    assert_eq!(m.output(), &vec![b'/', b',', b')']);
    assert_eq!(m.tape(), &vec![0, 41]);
    assert_eq!(m.pointer(), 1);
}

#[test]
fn bytes_wrap_both_ways() {
    assert_eq!(run("-.", &[]), (Ok(()), vec![255]));
    assert_eq!(run("-++.", &[]), (Ok(()), vec![1]));
    assert_eq!(run(",+.", &[255]), (Ok(()), vec![0]));
    assert_eq!(run(",--.", &[1]), (Ok(()), vec![255]));
}

#[test]
fn large_amounts_are_taken_as_bytes() {
    let mut out = Vec::new();
    let p = Program(vec![AddConst(0, 300), Output(0), AddConst(0, -600), Output(0)]);
    assert_eq!(p.execute(&[], &mut out), Ok(()));
    assert_eq!(out, vec![44, 212]);
}

#[test]
fn multiply_accumulate_wraps() {
    let mut out = Vec::new();
    let p = Program(vec![
        AddConst(0, 7),
        AddConst(1, 250),
        AddMult(1, 0, 3),
        Output(1),
        AddMult(1, 0, -1),
        Output(1),
        AddMult(0, 0, 1),
        Output(0),
    ]);
    assert_eq!(p.execute(&[], &mut out), Ok(()));
    assert_eq!(out, vec![15, 8, 14]);
}

#[test]
fn zero_clears_a_cell() {
    let mut out = Vec::new();
    let p = Program(vec![AddConst(2, 9), Output(2), Zero(2), Output(2)]);
    assert_eq!(p.execute(&[], &mut out), Ok(()));
    assert_eq!(out, vec![9, 0]);
}

#[test]
fn output_is_put_at_the_end() {
    let mut out = vec![1, 2, 3];
    assert_eq!(lowered("+.+.").execute(&[], &mut out), Ok(()));
    assert_eq!(out, vec![1, 2, 3, 1, 2]);
}

#[test]
fn hello() {
    let src = "++++++++[>++++[>++>+++>+++>+<<<<-]>+>+>->>+[<]<-]>>.>---.+++++++..+++.>>.<-.<.+++.------.--------.>>+.>++.";
    assert_eq!(run(src, &[]), (Ok(()), b"Hello World!\n".to_vec()));
}

#[test]
fn the_optimized_program_writes_what_the_plain_one_writes() {
    for (src, input) in [
        ("++++++++[>++++[>++>+++>+++>+<<<<-]>+>+>->>+[<]<-]>>.>---.+++++++..+++.>>.<-.<.+++.------.--------.>>+.>++.", &b""[..]),
        (",[.,]", &b"echo"[..]),
        (",>,<[->+<]>.", &[20, 22][..]),
        (",>,<[->>+<<]>[->>+<<]>.>.", &[3, 200][..]),
        (",[->++>+++<<]>.>.", &[100][..]),
        ("+++[>+++[>+++<-]<-]>>.", &b""[..]),
        (">>+<<<", &b""[..]),
    ] {
        let plain = lowered(src);
        let better = plain.optimized().unwrap();
        let (mut a, mut b) = (Vec::new(), Vec::new());
        let ra = plain.execute_within(input, &mut a, 100_000);
        let rb = better.execute_within(input, &mut b, 100_000);
        assert_eq!(ra, rb, "{}", src);
        assert_eq!(a, b, "{}", src);
    }
}

#[test]
fn moving_left_of_the_first_cell_is_a_fault() {
    assert_eq!(run("<", &[]), (Err(Error::Fault(Fault::NegativeAddress)), vec![]));
    assert_eq!(run("+.>.<<.", &[]), (Err(Error::Fault(Fault::NegativeAddress)), vec![1, 0]));
    let mut out = Vec::new();
    assert_eq!(Program(vec![Output(-1)]).execute(&[], &mut out), Err(Fault::NegativeAddress));
    assert_eq!(Program(vec![Move(isize::MIN)]).execute(&[], &mut out), Err(Fault::NegativeAddress));
}

#[test]
fn reading_past_the_input_is_a_fault() {
    assert_eq!(run(",", &[]), (Err(Error::Fault(Fault::EndOfInput)), vec![]));
    assert_eq!(run(",.,.,.", &[7, 8]), (Err(Error::Fault(Fault::EndOfInput)), vec![7, 8]));
}

#[test]
fn a_loop_that_never_ends_uses_up_the_budget() {
    let mut out = Vec::new();
    assert_eq!(lowered("+[]").execute_within(&[], &mut out, 10), Err(Fault::StepLimit));
    assert_eq!(lowered("+[.]").execute_within(&[], &mut out, 3), Err(Fault::StepLimit));
    assert_eq!(out, vec![1, 1, 1]);
}

#[test]
fn each_pass_through_a_body_takes_one_from_the_budget() {
    let mut m = Machine::new(&[], 10);
    assert_eq!(m.run(&lowered("+++[-]").0), Ok(()));
    assert_eq!(m.fuel(), 7);
    assert_eq!(m.run(&lowered("++[>++[-]<-]").0), Ok(()));
    assert_eq!(m.fuel(), 1);
    assert_eq!(m.run(&lowered("[-]").0), Ok(()));
    assert_eq!(m.fuel(), 1);
    assert_eq!(m.run(&lowered("++[-]").0), Err(Fault::StepLimit));
    assert_eq!(m.fuel(), 0);
    assert_eq!(m.tape()[0], 1);
}

#[test]
fn the_tape_ends_at_the_highest_cell_addressed() {
    let mut m = Machine::new(&[], 100);
    assert_eq!(m.tape(), &vec![0]);
    assert_eq!(m.pointer(), 0);
    assert_eq!(m.resolve(0), Ok(0));
    assert_eq!(m.tape().len(), 1);
    assert_eq!(m.resolve(3), Ok(3));
    assert_eq!(m.tape(), &vec![0, 0, 0, 0]);
    assert_eq!(m.pointer(), 0);
    assert_eq!(m.resolve(1), Ok(1));
    assert_eq!(m.tape().len(), 4);
    assert_eq!(m.run(&lowered(">>>>>+<<").0), Ok(()));
    assert_eq!(m.tape(), &vec![0, 0, 0, 0, 0, 1]);
    assert_eq!(m.pointer(), 3);
    assert_eq!(m.resolve(-3), Ok(0));
    assert_eq!(m.resolve(-4), Err(Fault::NegativeAddress));
    assert_eq!(m.tape().len(), 6);
    assert_eq!(m.step(&Output(6)), Ok(()));
    assert_eq!(m.tape().len(), 10);
}

#[test]
fn a_fault_leaves_the_cells_grown_so_far() {
    let mut m = Machine::new(&[], 100);
    assert_eq!(m.step(&AddMult(2, -1, 1)), Err(Fault::NegativeAddress));
    assert_eq!(m.tape(), &vec![0, 0, 0]);
    assert_eq!(m.step(&Input(4)), Err(Fault::EndOfInput));
    assert_eq!(m.tape().len(), 5);
    assert_eq!(m.into_output(), vec![]);
}

#[test]
fn a_loop_is_passed_over_on_a_zero_cell() {
    let mut out = Vec::new();
    let p = Program(vec![Loop(vec![Move(-5), Output(0)]), AddConst(0, 2), Output(0)]);
    assert_eq!(p.execute(&[], &mut out), Ok(()));
    assert_eq!(out, vec![2]);
}

#[test]
fn step_runs_a_whole_loop() {
    let mut m = Machine::new(b"abc", 100);
    assert_eq!(m.step(&Input(0)), Ok(()));
    assert_eq!(m.step(&Loop(vec![Output(0), AddConst(0, -96), Loop(vec![Zero(0)])])), Ok(()));
    assert_eq!(m.output(), &vec![b'a']);
    assert_eq!(m.fuel(), 98);
    assert_eq!(m.step(&Input(1)), Ok(()));
    assert_eq!(m.tape(), &vec![0, b'b']);
}

#[test]
fn the_optimized_program_gets_further_on_a_small_budget() {
    let plain = lowered("+++[-].");
    let better = plain.optimized().unwrap();
    let (mut a, mut b) = (Vec::new(), Vec::new());
    assert_eq!(plain.execute_within(&[], &mut a, 2), Err(Fault::StepLimit));
    assert_eq!(better.execute_within(&[], &mut b, 2), Ok(()));
    assert_eq!(a, vec![]);
    assert_eq!(b, vec![0]);
    let (mut a, mut b) = (Vec::new(), Vec::new());
    assert_eq!(plain.execute_within(&[], &mut a, 3), Ok(()));
    assert_eq!(better.execute_within(&[], &mut b, 1), Ok(()));
    assert_eq!(a, b);
}

#[test]
fn a_fault_of_the_plain_program_is_a_fault_of_the_optimized_one() {
    for src in ["<", "+.<.", ">+<<", "+[<]", "+[->+<]<", "+[<+>-]", "+>+<[>[<<+>>-]<-]", "<>+.", "+.<>."] {
        let plain = lowered(src);
        let better = plain.optimized().unwrap();
        let (mut a, mut b) = (Vec::new(), Vec::new());
        let ra = plain.execute_within(&[], &mut a, 1000);
        let rb = better.execute_within(&[], &mut b, 1000);
        assert_eq!(ra, rb, "{}", src);
        assert_eq!(a, b, "{}", src);
    }
}
