use brainfuck::ast::{parse, Node, Program};
use brainfuck::syntax::SyntaxError;

/// A greeting, commented the usual way: the text starts with a loop that is
/// never entered, so its commands do nothing.
const HELLO: &str = r#"[ Prints a greeting and a line feed, with 106 commands that count [none is wasted.]

  This first loop is a "comment", which may hold any command at all
  because nothing in it is ever run. The characters ".", ",", "+", "-", "<" and ">"
  do no harm, only "[" and "]" must come in pairs. The loop is passed over
  since the first cell starts at zero
]
++++++++               eight in cell 0
[
    >++++               four in cell 1
    [
        >++             two more in cell 2
        >+++            three more in cell 3
        >+++            three more in cell 4
        >+              one more in cell 5
        <<<<-           count cell 1 down
    ]
    >+                  one more in cell 2
    >+                  one more in cell 3
    >-                  one less in cell 4
    >>+                 one more in cell 6
    [<]                 back to the first empty cell
    <-                  count cell 0 down
]

>>.                     H
>---.                   e
+++++++..+++.           llo
>>.                     a space
<-.                     W
<.                      o
+++.------.--------.    rld
>>+.                    an exclamation mark
>++.                    a line feed
"#;

#[test]
fn test_parser() {
    let src = String::from(HELLO);
    let ast = parse(src).unwrap();
    let aststring = format!("{:?}", ast);
    let expected = "Program([Loop([Input, Loop([Output]), Input, Output, Output, Input, Input, Input, Add(1), Input, Add(-1), Input, Move(0), Input, Loop([]), Output]), Add(8), Loop([Move(1), Add(4), Loop([Move(1), Add(2), Move(1), Add(3), Move(1), Add(3), Move(1), Add(1), Move(-4), Add(-1)]), Move(1), Add(1), Move(1), Add(1), Move(1), Add(-1), Move(2), Add(1), Loop([Move(-1)]), Move(-1), Add(-1)]), Move(2), Output, Move(1), Add(-3), Output, Add(7), Output, Output, Add(3), Output, Move(2), Output, Move(-1), Add(-1), Output, Move(-1), Output, Add(3), Output, Add(-6), Output, Add(-8), Output, Move(2), Add(1), Output, Move(1), Add(2), Output])";
    assert!(aststring == expected, "test/hello.bf parsed to {}", aststring);
}

#[test]
fn empty_text_is_the_empty_program() {
    assert_eq!(parse(String::new()), Ok(Program(vec![])));
    assert_eq!(parse(String::from("no commands here")), Ok(Program(vec![])));
}

#[test]
fn runs_are_folded_into_one_node() {
    assert_eq!(parse(String::from(">>>")), Ok(Program(vec![Node::Move(3)])));
    assert_eq!(parse(String::from("<<")), Ok(Program(vec![Node::Move(-2)])));
    assert_eq!(parse(String::from("+++++")), Ok(Program(vec![Node::Add(5)])));
    assert_eq!(parse(String::from("--")), Ok(Program(vec![Node::Add(-2)])));
    assert_eq!(parse(String::from("+-+")), Ok(Program(vec![Node::Add(1)])));
    assert_eq!(parse(String::from("<>")), Ok(Program(vec![Node::Move(0)])));
    assert_eq!(
        parse(String::from(">+<-")),
        Ok(Program(vec![Node::Move(1), Node::Add(1), Node::Move(-1), Node::Add(-1)]))
    );
}

#[test]
fn a_run_goes_on_across_what_is_filtered_out() {
    assert_eq!(parse(String::from("+ one +\n+")), Ok(Program(vec![Node::Add(3)])));
    assert_eq!(parse(String::from("> x <")), Ok(Program(vec![Node::Move(0)])));
}

#[test]
fn a_run_ends_at_a_bracket_or_a_port() {
    assert_eq!(
        parse(String::from("+.+,+[+]+")),
        Ok(Program(vec![
            Node::Add(1),
            Node::Output,
            Node::Add(1),
            Node::Input,
            Node::Add(1),
            Node::Loop(vec![Node::Add(1)]),
            Node::Add(1),
        ]))
    );
}

#[test]
fn loops_nest() {
    assert_eq!(
        parse(String::from("[[][[-]]]")),
        Ok(Program(vec![Node::Loop(vec![
            Node::Loop(vec![]),
            Node::Loop(vec![Node::Loop(vec![Node::Add(-1)])]),
        ])]))
    );
}

#[test]
fn an_open_bracket_alone_is_no_program() {
    assert_eq!(parse(String::from("[")), Err(SyntaxError::UnmatchedOpen));
    assert_eq!(parse(String::from("+[[-]")), Err(SyntaxError::UnmatchedOpen));
}

#[test]
fn a_close_bracket_alone_is_no_program() {
    assert_eq!(parse(String::from("]")), Err(SyntaxError::UnmatchedClose));
    assert_eq!(parse(String::from("[]]")), Err(SyntaxError::UnmatchedClose));
    assert_eq!(parse(String::from("][")), Err(SyntaxError::UnmatchedClose));
}

#[test]
fn the_strict_reader_takes_commands_only() {
    assert_eq!(
        Program::from_source_string(String::from("+[-]")),
        Ok(Program(vec![Node::Add(1), Node::Loop(vec![Node::Add(-1)])]))
    );
    assert_eq!(
        Program::from_source_string(String::from("+ -")),
        Err(SyntaxError::UnexpectedCharacter)
    );
    assert_eq!(
        Program::from_source_string(String::from("a]")),
        Err(SyntaxError::UnexpectedCharacter)
    );
    assert_eq!(Program::from_source_string(String::from("]a")), Err(SyntaxError::UnmatchedClose));
    assert_eq!(Program::from_source_string(String::from("[")), Err(SyntaxError::UnmatchedOpen));
}

#[test]
fn characters_of_several_bytes_are_passed_over() {
    assert_eq!(parse(String::from("+é+→+")), Ok(Program(vec![Node::Add(3)])));
}
