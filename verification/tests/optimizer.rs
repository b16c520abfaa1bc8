use brainfuck::ast;
use brainfuck::ir::Node::{AddConst, AddMult, Input, Loop, Move, Output, Zero};
use brainfuck::ir::{low_byte, Node, Program};

fn lowered(src: &str) -> Program {
    Program::from_ast(&ast::parse(String::from(src)).unwrap(), false)
}

#[test]
fn test_is_multiply_loop() {
    assert!(!Loop(vec![]).is_multiply_loop());
    assert!(Loop(vec![AddConst(0, -1)]).is_multiply_loop());
    assert!(Loop(vec![Move(1), AddConst(-1, -1), Move(-1)]).is_multiply_loop());
    assert!(!Loop(vec![Move(1), AddConst(0, -1), Move(-1)]).is_multiply_loop());
    assert!(!Loop(vec![Move(1), AddConst(-1, -1)]).is_multiply_loop());
    assert!(!Loop(vec![AddMult(0, 0, 0), AddConst(0, -1)]).is_multiply_loop());
    assert!(!Loop(vec![Input(0), AddConst(0, -1)]).is_multiply_loop());
    assert!(!Loop(vec![Output(0), AddConst(0, -1)]).is_multiply_loop());
    assert!(!Loop(vec![Zero(0), AddConst(0, -1)]).is_multiply_loop());
    assert!(!Loop(vec![Loop(vec![]), AddConst(0, -1)]).is_multiply_loop());
    assert!(!Loop(vec![Move(1), AddConst(0, 1), Move(1), AddConst(0, 2), Move(-2)]).is_multiply_loop());
    assert!(Loop(vec![Move(1), AddConst(0, 1), AddConst(-1, -1), Move(1), AddConst(0, 2), Move(-2)]).is_multiply_loop());
    assert!(!Loop(vec![AddConst(0, -1), Move(1), AddConst(0, 1), AddConst(-1, 1), Move(-1)]).is_multiply_loop());
    assert!(!Loop(vec![AddConst(0, -2)]).is_multiply_loop());
}

#[test]
fn multiply_loops_of_source_text() {
    let is = |src: &str| lowered(src).0[0].is_multiply_loop();
    assert!(is("[-]"));
    assert!(!is("[>-<]"));
    assert!(is("[->+<]"));
    assert!(is("[>+<-]"));
    assert!(!is("[>+<]"));
    assert!(!is("[+]"));
    assert!(!is("[->+]"));
    assert!(!is("[-.]"));
    assert!(!is("[-,]"));
    assert!(!is("[-[-]]"));
    assert!(!is("[]"));
}

#[test]
fn a_node_that_is_no_loop_is_no_multiply_loop() {
    assert!(!AddConst(0, -1).is_multiply_loop());
    assert!(!Move(0).is_multiply_loop());
    assert!(!Zero(0).is_multiply_loop());
}

#[test]
fn the_counter_is_judged_as_a_byte() {
    assert!(Loop(vec![AddConst(0, 255)]).is_multiply_loop());
    assert!(Loop(vec![AddConst(0, -257)]).is_multiply_loop());
    assert!(Loop(vec![AddConst(0, 511)]).is_multiply_loop());
    assert!(!Loop(vec![AddConst(0, 256)]).is_multiply_loop());
    assert!(Loop(vec![AddConst(0, i32::MAX), AddConst(0, i32::MAX), AddConst(0, 1)]).is_multiply_loop());
    assert!(Loop(vec![AddConst(0, i32::MIN), AddConst(0, -1)]).is_multiply_loop());
}

#[test]
fn movements_beyond_a_word_are_summed_exactly() {
    let far = isize::MAX;
    assert!(Loop(vec![Move(far), Move(far), Move(-far), Move(-far), AddConst(0, -1)]).is_multiply_loop());
    assert!(!Loop(vec![Move(far), Move(far), Move(2), AddConst(0, -1)]).is_multiply_loop());
}

#[test]
fn low_byte_wraps() {
    assert_eq!(low_byte(0), 0);
    assert_eq!(low_byte(1), 1);
    assert_eq!(low_byte(255), 255);
    assert_eq!(low_byte(256), 0);
    assert_eq!(low_byte(257), 1);
    assert_eq!(low_byte(-1), 255);
    assert_eq!(low_byte(-256), 0);
    assert_eq!(low_byte(-257), 255);
    assert_eq!(low_byte(i32::MAX), 255);
    assert_eq!(low_byte(i32::MIN), 0);
}

#[test]
fn lowering_sets_every_offset_to_zero() {
    assert_eq!(
        lowered("+>,.[-<]"),
        Program(vec![
            AddConst(0, 1),
            Move(1),
            Input(0),
            Output(0),
            Loop(vec![AddConst(0, -1), Move(-1)]),
        ])
    );
}

#[test]
fn a_multiply_loop_is_converted() {
    let n = lowered("[->+<]").0[0].convert_multiply_loop();
    assert_eq!(n, Loop(vec![Move(1), AddMult(0, -1, 1), Move(-1), Zero(0)]));
    let n = lowered("[>+++>++<<-]").0[0].convert_multiply_loop();
    assert_eq!(
        n,
        Loop(vec![Move(1), AddMult(0, -1, 3), Move(1), AddMult(0, -2, 2), Move(-2), Zero(0)])
    );
    let n = lowered("[-]").0[0].convert_multiply_loop();
    assert_eq!(n, Loop(vec![Zero(0)]));
    let n = lowered("[<<+>>-]").0[0].convert_multiply_loop();
    assert_eq!(n, Loop(vec![Move(-2), AddMult(0, 2, 1), Move(2), Zero(0)]));
}

#[test]
fn conversion_keeps_offsets_and_negates_the_distance() {
    let n = Loop(vec![AddConst(3, 5), Move(2), AddConst(-2, -1), AddConst(1, 7), Move(-2)]);
    assert_eq!(
        n.convert_multiply_loop(),
        Loop(vec![AddMult(3, 0, 5), Move(2), AddMult(1, -2, 7), Move(-2), Zero(0)])
    );
}

#[test]
fn conversion_goes_into_loops_that_are_no_multiply_loops() {
    let n = lowered("[.[-]>[->+<]]").0[0].convert_multiply_loop();
    assert_eq!(
        n,
        Loop(vec![
            Output(0),
            Loop(vec![Zero(0)]),
            Move(1),
            Loop(vec![Move(1), AddMult(0, -1, 1), Move(-1), Zero(0)]),
        ])
    );
    assert_eq!(Move(4).convert_multiply_loop(), Move(4));
    assert_eq!(AddMult(1, 2, 3).convert_multiply_loop(), AddMult(1, 2, 3));
}

#[test]
fn try_convert_tells_when_the_distance_cannot_be_negated() {
    let n = Loop(vec![Move(isize::MIN), AddConst(0, 1), Move(isize::MAX), Move(1), AddConst(0, -1)]);
    assert!(n.is_multiply_loop());
    assert_eq!(n.try_convert(), None);
    let n = Loop(vec![Move(-isize::MAX), AddConst(0, 1), Move(isize::MAX), AddConst(0, -1)]);
    assert_eq!(
        n.try_convert(),
        Some(Loop(vec![Move(-isize::MAX), AddMult(0, isize::MAX, 1), Move(isize::MAX), Zero(0)]))
    );
}

#[test]
fn opt_multiply_converts_every_loop() {
    let mut p = lowered("+[->+<]>[-].");
    p.opt_multiply();
    assert_eq!(
        p,
        Program(vec![
            AddConst(0, 1),
            Loop(vec![Move(1), AddMult(0, -1, 1), Move(-1), Zero(0)]),
            Move(1),
            Loop(vec![Zero(0)]),
            Output(0),
        ])
    );
}

#[test]
fn movements_are_folded_into_offsets() {
    let mut p = lowered(">+>>-<.,");
    p.opt_moves();
    assert_eq!(p, Program(vec![AddConst(1, 1), AddConst(3, -1), Output(2), Input(2), Move(2)]));
}

#[test]
fn a_loop_is_entered_at_the_true_pointer() {
    let mut p = lowered(">>[>+<<]<+");
    p.opt_moves();
    assert_eq!(
        p,
        Program(vec![Move(2), Loop(vec![AddConst(1, 1), Move(-1)]), AddConst(-1, 1), Move(-1)])
    );
}

#[test]
fn no_movement_is_emitted_where_none_is_pending() {
    let mut p = lowered("+[-]<>[.]><");
    p.opt_moves();
    assert_eq!(
        p,
        Program(vec![AddConst(0, 1), Loop(vec![AddConst(0, -1)]), Loop(vec![Output(0)])])
    );
}

#[test]
fn coalescing_shifts_both_offsets_of_a_multiply_accumulate() {
    let mut p = Program(vec![Move(3), AddMult(1, -2, 5), Zero(4), Move(-1), Output(-1)]);
    p.opt_moves();
    assert_eq!(p, Program(vec![AddMult(4, 1, 5), Zero(7), Output(1), Move(2)]));
}

#[test]
fn both_passes_on_a_multiply_loop() {
    let tree = ast::parse(String::from("++++[>++++<-]>.")).unwrap();
    let p = Program::from_ast(&tree, true);
    assert_eq!(
        p,
        Program(vec![
            AddConst(0, 4),
            Loop(vec![AddMult(1, 0, 4), Zero(0)]),
            Output(1),
            Move(1),
        ])
    );
    assert_eq!(Program::from_ast(&tree, false).optimized(), Some(p));
}

#[test]
fn optimizing_twice_changes_nothing_more() {
    for src in [
        "++++[>++++<-]>.",
        ">>[-]<<[->>+<<]",
        "+[>+[>+<-]<-]>>.",
        ",[.,]",
        ">+>+[<]>[>]<<-",
        "[>[>[-]<-]<-]",
        "[->+>+<<]>>[-<<+>>]",
    ] {
        let once = lowered(src).optimized().unwrap();
        let twice = once.optimized().unwrap();
        assert_eq!(once, twice, "{}", src);
    }
}

fn no_two_movements_touch(ns: &[Node]) -> bool {
    let mut last_was_move = false;
    for n in ns {
        match n {
            Move(_) => {
                if last_was_move {
                    return false;
                }
                last_was_move = true;
            }
            Loop(body) => {
                if !no_two_movements_touch(body) {
                    return false;
                }
                last_was_move = false;
            }
            _ => last_was_move = false,
        }
    }
    true
}

fn displacement(ns: &[Node]) -> isize {
    let mut sum = 0;
    for n in ns {
        if let Move(d) = n {
            sum += d;
        }
    }
    sum
}

#[test]
fn coalescing_leaves_no_two_movements_side_by_side() {
    let mut p = Program(vec![
        Move(1),
        Move(2),
        AddConst(0, 1),
        Move(-1),
        Move(-1),
        Loop(vec![Move(1), Move(1), Output(0), Move(3), Move(-1)]),
        Move(4),
        Move(5),
    ]);
    let before = displacement(&p.0);
    p.opt_moves();
    assert!(no_two_movements_touch(&p.0));
    assert_eq!(displacement(&p.0), before);
    assert_eq!(
        p,
        Program(vec![
            AddConst(3, 1),
            Move(1),
            Loop(vec![Output(2), Move(4)]),
            Move(9),
        ])
    );
}

#[test]
fn optimized_tells_when_an_offset_does_not_fit() {
    assert_eq!(Program(vec![Move(isize::MAX), Move(1)]).optimized(), None);
    assert_eq!(Program(vec![Move(isize::MAX), AddConst(1, 1)]).optimized(), None);
    assert_eq!(Program(vec![Move(isize::MIN), Output(-1)]).optimized(), None);
    assert_eq!(
        Program(vec![Move(isize::MAX), Move(1), Move(-1)]).optimized(),
        Some(Program(vec![Move(isize::MAX)]))
    );
}

#[test]
fn a_copy_is_equal() {
    let p = lowered("+[->+<]>[.,]");
    assert_eq!(p.clone(), p);
    assert_eq!(p.0[1].clone(), p.0[1]);
}
