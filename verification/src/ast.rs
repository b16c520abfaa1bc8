//! The syntax tree, and the parser that builds it from source text.

use vstd::prelude::*;
use crate::brackets::{
    all_commands, balanced, lemma_program_iff_balanced, lemma_strict_iff_balanced,
};
use crate::syntax::{added, appended, commands, fed, parsed, read, shifted, SyntaxError, Tree};

verus! {

/// One node of the syntax tree.
#[derive(Debug, PartialEq, Eq)]
pub enum Node {
    /// `[` body `]`
    Loop(Vec<Node>),
    /// A run of `>` and `<`, as the distance it moves the pointer.
    Move(isize),
    /// A run of `+` and `-`, as the amount it adds to the cell.
    Add(i32),
    /// `.`
    Output,
    /// `,`
    Input,
}

/// A whole program: its nodes in order.
#[derive(Debug, PartialEq, Eq)]
pub struct Program(pub Vec<Node>);

/// The tree that a node stands for.
pub open spec fn lift(n: Node) -> Tree
    decreases n,
{
    match n {
        Node::Loop(body) => Tree::Loop(lift_all(body@)),
        Node::Move(d) => Tree::Shift(d as int),
        Node::Add(a) => Tree::Arith(a as int),
        Node::Output => Tree::Output,
        Node::Input => Tree::Input,
    }
}

/// The trees that a sequence of nodes stands for.
pub open spec fn lift_all(ns: Seq<Node>) -> Seq<Tree>
    decreases ns,
{
    if ns.len() == 0 {
        Seq::empty()
    } else {
        lift_all(ns.drop_last()).push(lift(ns.last()))
    }
}

impl View for Node {
    type V = Tree;

    open spec fn view(&self) -> Tree {
        lift(*self)
    }
}

impl View for Program {
    type V = Seq<Tree>;

    open spec fn view(&self) -> Seq<Tree> {
        lift_all(self.0@)
    }
}

/// `lift_all` works node by node.
pub proof fn lemma_lift_all(ns: Seq<Node>)
    ensures
        lift_all(ns).len() == ns.len(),
        forall|k: int| 0 <= k < ns.len() ==> #[trigger] lift_all(ns)[k] == lift(ns[k]),
    decreases ns.len(),
{
    if ns.len() > 0 {
        lemma_lift_all(ns.drop_last());
    }
}

/// `lift_all` of a sequence and one more node.
pub proof fn lemma_lift_all_push(ns: Seq<Node>, n: Node)
    ensures
        lift_all(ns.push(n)) == lift_all(ns).push(lift(n)),
{
    assert(ns.push(n).drop_last() == ns);
}

/// The sequences that the reader's stack stands for.
pub open spec fn lift_frames(stack: Seq<Vec<Node>>) -> Seq<Seq<Tree>> {
    Seq::new(stack.len(), |k: int| lift_all(stack[k]@))
}

/// The run at the end of the sequence under construction has at most `k` characters.
spec fn run_within(frame: Seq<Node>, k: int) -> bool {
    frame.len() > 0 ==> match frame.last() {
        Node::Move(d) => -k <= d <= k,
        Node::Add(a) => -k <= a <= k,
        _ => true,
    }
}

/// The sequence under construction after one more `>` or `<`.
fn shift_frame(frame: &mut Vec<Node>, by: isize, Ghost(k): Ghost<int>)
    requires
        -1 <= by <= 1,
        0 <= k < i32::MAX,
        run_within(old(frame)@, k),
    ensures
        lift_all(final(frame)@) == shifted(lift_all(old(frame)@), by as int),
        run_within(final(frame)@, k + 1),
{
    let ghost before = frame@;
    proof {
        lemma_lift_all(before);
    }
    match frame.pop() {
        Some(Node::Move(d)) => {
            let n = Node::Move(d + by);
            proof {
                lemma_lift_all(frame@);
                lemma_lift_all_push(frame@, n);
                assert(lift_all(frame@) == lift_all(before).drop_last());
            }
            frame.push(n);
            assert(lift_all(frame@) == lift_all(before).update(
                before.len() - 1,
                Tree::Shift(d + by),
            ));
        },
        Some(other) => {
            let n = Node::Move(by);
            proof {
                assert(frame@.push(other) == before);
                lemma_lift_all_push(before, n);
            }
            frame.push(other);
            frame.push(n);
        },
        None => {
            let n = Node::Move(by);
            proof {
                lemma_lift_all_push(before, n);
            }
            frame.push(n);
        },
    }
}

/// The sequence under construction after one more `+` or `-`.
fn add_frame(frame: &mut Vec<Node>, by: i32, Ghost(k): Ghost<int>)
    requires
        -1 <= by <= 1,
        0 <= k < i32::MAX,
        run_within(old(frame)@, k),
    ensures
        lift_all(final(frame)@) == added(lift_all(old(frame)@), by as int),
        run_within(final(frame)@, k + 1),
{
    let ghost before = frame@;
    proof {
        lemma_lift_all(before);
    }
    match frame.pop() {
        Some(Node::Add(a)) => {
            let n = Node::Add(a + by);
            proof {
                lemma_lift_all(frame@);
                lemma_lift_all_push(frame@, n);
                assert(lift_all(frame@) == lift_all(before).drop_last());
            }
            frame.push(n);
            assert(lift_all(frame@) == lift_all(before).update(
                before.len() - 1,
                Tree::Arith(a + by),
            ));
        },
        Some(other) => {
            let n = Node::Add(by);
            proof {
                assert(frame@.push(other) == before);
                lemma_lift_all_push(before, n);
            }
            frame.push(other);
            frame.push(n);
        },
        None => {
            let n = Node::Add(by);
            proof {
                lemma_lift_all_push(before, n);
            }
            frame.push(n);
        },
    }
}

/// What the reader holds after one more command character.
fn feed(stack: &mut Vec<Vec<Node>>, c: char, Ghost(k): Ghost<int>) -> (res: Result<
    (),
    SyntaxError,
>)
    requires
        old(stack).len() >= 1,
        0 <= k < i32::MAX,
        run_within(old(stack)@.last()@, k),
    ensures
        match fed(lift_frames(old(stack)@), c) {
            Ok(frames) => res is Ok && lift_frames(final(stack)@) == frames,
            Err(e) => res == Err::<(), SyntaxError>(e),
        },
        final(stack).len() >= 1,
        run_within(final(stack)@.last()@, k + 1),
{
    let ghost before = stack@;
    let ghost frames = lift_frames(before);
    if c == '[' {
        stack.push(Vec::new());
        assert(lift_frames(stack@) == frames.push(Seq::empty()));
        return Ok(());
    }
    if c == ']' {
        if stack.len() < 2 {
            return Err(SyntaxError::UnmatchedClose);
        }
        let body = stack.pop().unwrap();
        let mut outer = stack.pop().unwrap();
        let n = Node::Loop(body);
        proof {
            lemma_lift_all_push(outer@, n);
        }
        outer.push(n);
        stack.push(outer);
        assert(lift_frames(stack@) == appended(frames.drop_last(), Tree::Loop(frames.last())));
        return Ok(());
    }
    if !(c == '>' || c == '<' || c == '+' || c == '-' || c == '.' || c == ',') {
        return Err(SyntaxError::UnexpectedCharacter);
    }
    let mut top = stack.pop().unwrap();
    let ghost was = top@;
    if c == '>' {
        shift_frame(&mut top, 1, Ghost(k));
    } else if c == '<' {
        shift_frame(&mut top, -1, Ghost(k));
    } else if c == '+' {
        add_frame(&mut top, 1, Ghost(k));
    } else if c == '-' {
        add_frame(&mut top, -1, Ghost(k));
    } else if c == '.' {
        proof {
            lemma_lift_all_push(top@, Node::Output);
        }
        top.push(Node::Output);
    } else {
        proof {
            lemma_lift_all_push(top@, Node::Input);
        }
        top.push(Node::Input);
    }
    stack.push(top);
    assert(lift_frames(stack@) == frames.update(frames.len() - 1, lift_all(top@)));
    Ok(())
}

/// Reads the text. Where `strict` is set, a character that is no command is
/// an error; else it is passed over.
fn read_text(src: &str, strict: bool) -> (res: Result<Program, SyntaxError>)
    requires
        src@.len() <= i32::MAX,
    ensures
        match parsed(if strict { src@ } else { commands(src@) }) {
            Ok(trees) => res is Ok && res->Ok_0@ == trees,
            Err(e) => res == Err::<Program, SyntaxError>(e),
        },
{
    let mut stack: Vec<Vec<Node>> = Vec::new();
    stack.push(Vec::new());
    let mut error: Option<SyntaxError> = None;
    assert(lift_frames(stack@) == seq![Seq::<Tree>::empty()]);
    for c in it: src.chars()
        invariant
            it.seq() == src@,
            src@.len() <= i32::MAX,
            stack.len() >= 1,
            run_within(stack@.last()@, it.index() as int),
            ({
                let seen = src@.take(it.index() as int);
                let text = if strict { seen } else { commands(seen) };
                match error {
                    Some(e) => read(text) == Err::<Seq<Seq<Tree>>, SyntaxError>(e),
                    None => read(text) == Ok::<Seq<Seq<Tree>>, SyntaxError>(lift_frames(stack@)),
                }
            }),
    {
        let ghost k = it.index() as int;
        let ghost seen = src@.take(k);
        proof {
            assert(src@.take(k + 1).drop_last() == seen);
            assert(src@.take(k + 1).last() == c);
            assert(commands(seen).push(c).drop_last() == commands(seen));
        }
        let command = c == '[' || c == ']' || c == '<' || c == '>' || c == '-' || c == '+' || c
            == '.' || c == ',';
        if error.is_none() && (strict || command) {
            match feed(&mut stack, c, Ghost(k)) {
                Ok(()) => {},
                Err(e) => {
                    error = Some(e);
                },
            }
        } else {
            assert(run_within(stack@.last()@, k + 1));
        }
    }
    assert(src@.take(src@.len() as int) == src@);
    match error {
        Some(e) => Err(e),
        None => {
            if stack.len() == 1 {
                let nodes = stack.pop().unwrap();
                Ok(Program(nodes))
            } else {
                Err(SyntaxError::UnmatchedOpen)
            }
        },
    }
}

impl Program {
    /// The program that a text of nothing but commands denotes.
    ///
    /// The text is no program where a bracket has no partner, or where it
    /// holds a character that is no command.
    pub fn from_source_string(src: String) -> (res: Result<Program, SyntaxError>)
        requires
            src@.len() <= i32::MAX,
        ensures
            res is Ok <==> all_commands(src@) && balanced(src@),
            match parsed(src@) {
                Ok(trees) => res is Ok && res->Ok_0@ == trees,
                Err(e) => res == Err::<Program, SyntaxError>(e),
            },
    {
        proof {
            lemma_strict_iff_balanced(src@);
        }
        read_text(src.as_str(), true)
    }
}

/// The program that a source text denotes: what is left of the text when the
/// characters that are no commands are taken out is read as a program.
///
/// The text is no program where a bracket has no partner.
pub fn parse(src: String) -> (res: Result<Program, SyntaxError>)
    requires
        src@.len() <= i32::MAX,
    ensures
        res is Ok <==> balanced(commands(src@)),
        match parsed(commands(src@)) {
            Ok(trees) => res is Ok && res->Ok_0@ == trees,
            Err(e) => res == Err::<Program, SyntaxError>(e),
        },
{
    proof {
        lemma_program_iff_balanced(src@);
    }
    read_text(src.as_str(), false)
}

} // verus!
