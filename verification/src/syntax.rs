//! The source language as a mathematical object: the syntax tree, and the
//! tree that a text denotes.
//!
//! A text is read from left to right. The reader holds the sequences under
//! construction, the program itself first and the body of the innermost open
//! loop last. A run of `>` and `<`, or of `+` and `-`, becomes one node that
//! holds its sum.

use vstd::prelude::*;

verus! {

/// One node of the syntax tree.
pub enum Tree {
    /// `[` body `]`
    Loop(Seq<Tree>),
    /// A run of `>` and `<`: the number of `>` less the number of `<`.
    Shift(int),
    /// A run of `+` and `-`: the number of `+` less the number of `-`.
    Arith(int),
    /// `.`
    Output,
    /// `,`
    Input,
}

/// Why a text is no program.
#[derive(Clone, Copy, Debug, PartialEq, Eq, Structural)]
pub enum SyntaxError {
    /// A `[` is never closed.
    UnmatchedOpen,
    /// A `]` closes no loop.
    UnmatchedClose,
    /// A character that is none of the eight commands, where none is allowed.
    UnexpectedCharacter,
}

/// The eight characters that mean something.
pub open spec fn is_command(c: char) -> bool {
    c == '[' || c == ']' || c == '<' || c == '>' || c == '-' || c == '+' || c == '.' || c == ','
}

/// The text without the characters that mean nothing.
pub open spec fn commands(text: Seq<char>) -> Seq<char>
    decreases text.len(),
{
    if text.len() == 0 {
        Seq::empty()
    } else if is_command(text.last()) {
        commands(text.drop_last()).push(text.last())
    } else {
        commands(text.drop_last())
    }
}

/// The sequence with `t` at its end.
pub open spec fn appended(frames: Seq<Seq<Tree>>, t: Tree) -> Seq<Seq<Tree>> {
    frames.update(frames.len() - 1, frames.last().push(t))
}

/// The sequence under construction after one more `>` or `<`, worth `by`:
/// it joins the run at the end, or starts one.
pub open spec fn shifted(frame: Seq<Tree>, by: int) -> Seq<Tree> {
    if frame.len() > 0 && frame.last() is Shift {
        frame.update(frame.len() - 1, Tree::Shift(frame.last()->Shift_0 + by))
    } else {
        frame.push(Tree::Shift(by))
    }
}

/// The sequence under construction after one more `+` or `-`, worth `by`:
/// it joins the run at the end, or starts one.
pub open spec fn added(frame: Seq<Tree>, by: int) -> Seq<Tree> {
    if frame.len() > 0 && frame.last() is Arith {
        frame.update(frame.len() - 1, Tree::Arith(frame.last()->Arith_0 + by))
    } else {
        frame.push(Tree::Arith(by))
    }
}

/// What the reader holds after one more character.
pub open spec fn fed(frames: Seq<Seq<Tree>>, c: char) -> Result<Seq<Seq<Tree>>, SyntaxError> {
    if c == '>' {
        Ok(frames.update(frames.len() - 1, shifted(frames.last(), 1)))
    } else if c == '<' {
        Ok(frames.update(frames.len() - 1, shifted(frames.last(), -1)))
    } else if c == '+' {
        Ok(frames.update(frames.len() - 1, added(frames.last(), 1)))
    } else if c == '-' {
        Ok(frames.update(frames.len() - 1, added(frames.last(), -1)))
    } else if c == '.' {
        Ok(appended(frames, Tree::Output))
    } else if c == ',' {
        Ok(appended(frames, Tree::Input))
    } else if c == '[' {
        Ok(frames.push(Seq::empty()))
    } else if c == ']' {
        if frames.len() < 2 {
            Err(SyntaxError::UnmatchedClose)
        } else {
            Ok(appended(frames.drop_last(), Tree::Loop(frames.last())))
        }
    } else {
        Err(SyntaxError::UnexpectedCharacter)
    }
}

/// What the reader holds after the whole text, or the first error.
pub open spec fn read(text: Seq<char>) -> Result<Seq<Seq<Tree>>, SyntaxError>
    decreases text.len(),
{
    if text.len() == 0 {
        Ok(seq![Seq::empty()])
    } else {
        match read(text.drop_last()) {
            Err(e) => Err(e),
            Ok(frames) => fed(frames, text.last()),
        }
    }
}

/// The program that a text of commands denotes.
pub open spec fn parsed(text: Seq<char>) -> Result<Seq<Tree>, SyntaxError> {
    match read(text) {
        Err(e) => Err(e),
        Ok(frames) => if frames.len() == 1 {
            Ok(frames[0])
        } else {
            Err(SyntaxError::UnmatchedOpen)
        },
    }
}

} // verus!
