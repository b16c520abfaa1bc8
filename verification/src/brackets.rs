//! Which texts are programs: those whose brackets balance.

use vstd::prelude::*;
use crate::syntax::{commands, is_command, parsed, read, SyntaxError};

verus! {

/// What one character adds to the number of open loops.
pub open spec fn opens(c: char) -> int {
    if c == '[' {
        1
    } else if c == ']' {
        -1
    } else {
        0
    }
}

/// The number of `[` in the text less the number of `]`.
pub open spec fn depth(text: Seq<char>) -> int
    decreases text.len(),
{
    if text.len() == 0 {
        0
    } else {
        depth(text.drop_last()) + opens(text.last())
    }
}

/// At no point of the text were more loops closed than opened.
pub open spec fn never_below(text: Seq<char>) -> bool {
    forall|k: int| 0 <= k <= text.len() ==> depth(#[trigger] text.take(k)) >= 0
}

/// The text holds commands only.
pub open spec fn all_commands(text: Seq<char>) -> bool {
    forall|k: int| 0 <= k < text.len() ==> is_command(#[trigger] text[k])
}

/// Every `[` has its `]` and every `]` its `[`.
pub open spec fn balanced(text: Seq<char>) -> bool {
    never_below(text) && depth(text) == 0
}

/// What is left of a text holds commands only.
pub proof fn lemma_commands_are_commands(text: Seq<char>)
    ensures
        all_commands(commands(text)),
    decreases text.len(),
{
    if text.len() > 0 {
        lemma_commands_are_commands(text.drop_last());
    }
}

/// A text with one more character was never below zero where the text was
/// not and the character does not take it there.
proof fn lemma_never_below_push(before: Seq<char>, c: char)
    ensures
        never_below(before.push(c)) <==> never_below(before) && depth(before) + opens(c) >= 0,
{
    let text = before.push(c);
    assert(text.drop_last() == before);
    assert(text.take(text.len() as int) == text);
    assert(text.take(before.len() as int) == before);
    if never_below(text) {
        assert forall|k: int| 0 <= k <= before.len() implies depth(#[trigger] before.take(k))
            >= 0 by {
            assert(text.take(k) == before.take(k));
        }
        assert(depth(text.take(text.len() as int)) >= 0);
    }
    if never_below(before) && depth(before) + opens(c) >= 0 {
        assert forall|k: int| 0 <= k <= text.len() implies depth(#[trigger] text.take(k)) >= 0 by {
            if k <= before.len() {
                assert(text.take(k) == before.take(k));
            }
        }
    }
}

/// The reader holds one sequence for the program and one for each loop that
/// is open, and it fails exactly where a `]` closes nothing or a character is
/// no command.
pub proof fn lemma_read_depth(text: Seq<char>)
    ensures
        read(text) is Ok <==> all_commands(text) && never_below(text),
        read(text) is Ok ==> read(text)->Ok_0.len() == depth(text) + 1,
    decreases text.len(),
{
    if text.len() == 0 {
        assert forall|k: int| 0 <= k <= text.len() implies depth(#[trigger] text.take(k)) >= 0 by {
            assert(text.take(k) == text);
        }
    } else {
        let before = text.drop_last();
        let c = text.last();
        assert(text == before.push(c));
        lemma_read_depth(before);
        lemma_never_below_push(before, c);
        if all_commands(text) {
            assert forall|k: int| 0 <= k < before.len() implies is_command(#[trigger] before[k]) by {
                assert(before[k] == text[k]);
            }
            assert(is_command(text[text.len() - 1]));
        }
        if all_commands(before) && is_command(c) {
            assert forall|k: int| 0 <= k < text.len() implies is_command(#[trigger] text[k]) by {
                if k < before.len() {
                    assert(text[k] == before[k]);
                }
            }
        }
    }
}

/// A text of commands is a program exactly where its brackets balance, and
/// it lacks a `]` exactly where more loops were opened than closed.
pub proof fn lemma_parsed_iff_balanced(text: Seq<char>)
    requires
        all_commands(text),
    ensures
        parsed(text) is Ok <==> balanced(text),
        parsed(text) == Err::<Seq<crate::syntax::Tree>, SyntaxError>(SyntaxError::UnmatchedClose)
            <==> !never_below(text),
        parsed(text) == Err::<Seq<crate::syntax::Tree>, SyntaxError>(SyntaxError::UnmatchedOpen)
            <==> never_below(text) && depth(text) > 0,
{
    lemma_read_depth(text);
    lemma_read_error(text);
}

/// On a text of commands the reader fails for a `]` alone.
proof fn lemma_read_error(text: Seq<char>)
    requires
        all_commands(text),
    ensures
        read(text) is Err ==> read(text) == Err::<Seq<Seq<crate::syntax::Tree>>, SyntaxError>(
            SyntaxError::UnmatchedClose,
        ),
    decreases text.len(),
{
    if text.len() > 0 {
        let before = text.drop_last();
        assert forall|k: int| 0 <= k < before.len() implies is_command(#[trigger] before[k]) by {
            assert(before[k] == text[k]);
        }
        assert(is_command(text[text.len() - 1]));
        lemma_read_error(before);
    }
}

/// A text is a program exactly where it holds commands only and its
/// brackets balance.
pub proof fn lemma_strict_iff_balanced(text: Seq<char>)
    ensures
        parsed(text) is Ok <==> all_commands(text) && balanced(text),
{
    lemma_read_depth(text);
}

/// A source text is a program exactly where the brackets in it balance.
pub proof fn lemma_program_iff_balanced(text: Seq<char>)
    ensures
        parsed(commands(text)) is Ok <==> balanced(commands(text)),
{
    lemma_commands_are_commands(text);
    lemma_parsed_iff_balanced(commands(text));
}

} // verus!
