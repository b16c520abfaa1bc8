//! Folding runs while reading is reading one node for each character and
//! summing the neighbours afterwards.

use vstd::prelude::*;
use crate::syntax::{added, appended, fed, parsed, read, shifted, SyntaxError, Tree};

verus! {

/// What the reader holds after one more character, if it makes a node of
/// its own of every `>`, `<`, `+` and `-`.
pub open spec fn fed_apart(frames: Seq<Seq<Tree>>, c: char) -> Result<
    Seq<Seq<Tree>>,
    SyntaxError,
> {
    if c == '>' {
        Ok(appended(frames, Tree::Shift(1)))
    } else if c == '<' {
        Ok(appended(frames, Tree::Shift(-1)))
    } else if c == '+' {
        Ok(appended(frames, Tree::Arith(1)))
    } else if c == '-' {
        Ok(appended(frames, Tree::Arith(-1)))
    } else {
        fed(frames, c)
    }
}

/// What such a reader holds after the whole text, or the first error.
pub open spec fn read_apart(text: Seq<char>) -> Result<Seq<Seq<Tree>>, SyntaxError>
    decreases text.len(),
{
    if text.len() == 0 {
        Ok(seq![Seq::empty()])
    } else {
        match read_apart(text.drop_last()) {
            Err(e) => Err(e),
            Ok(frames) => fed_apart(frames, text.last()),
        }
    }
}

/// The program of a text of commands with one node for each character of a run.
pub open spec fn spelled(text: Seq<char>) -> Result<Seq<Tree>, SyntaxError> {
    match read_apart(text) {
        Err(e) => Err(e),
        Ok(frames) => if frames.len() == 1 {
            Ok(frames[0])
        } else {
            Err(SyntaxError::UnmatchedOpen)
        },
    }
}

/// The sequence with one more node, summed into the node at the end where
/// both are movements or both are additions.
pub open spec fn joined(acc: Seq<Tree>, t: Tree) -> Seq<Tree>
    decreases t, 0int,
{
    match t {
        Tree::Shift(d) => shifted(acc, d),
        Tree::Arith(a) => added(acc, a),
        Tree::Loop(body) => acc.push(Tree::Loop(summed(body))),
        _ => acc.push(t),
    }
}

/// The sequence with neighbouring movements summed into one node, and
/// neighbouring additions, at every depth.
pub open spec fn summed(ts: Seq<Tree>) -> Seq<Tree>
    decreases ts, 1int,
{
    if ts.len() == 0 {
        Seq::empty()
    } else {
        joined(summed(ts.drop_last()), ts.last())
    }
}

/// Each sequence that the folding reader holds is the sum of the one that
/// the other reader holds.
pub open spec fn frames_summed(apart: Seq<Seq<Tree>>, folded: Seq<Seq<Tree>>) -> bool {
    &&& apart.len() == folded.len()
    &&& forall|j: int| 0 <= j < apart.len() ==> summed(#[trigger] apart[j]) == folded[j]
}

/// The sum of a sequence with one more node.
proof fn lemma_summed_push(ts: Seq<Tree>, t: Tree)
    ensures
        summed(ts.push(t)) == joined(summed(ts), t),
{
    assert(ts.push(t).drop_last() == ts);
}

/// One more character keeps the two readers in step.
proof fn lemma_fed_summed(apart: Seq<Seq<Tree>>, folded: Seq<Seq<Tree>>, c: char)
    requires
        apart.len() >= 1,
        frames_summed(apart, folded),
    ensures
        fed_apart(apart, c) is Ok <==> fed(folded, c) is Ok,
        fed_apart(apart, c) is Err ==> fed_apart(apart, c)->Err_0 == fed(folded, c)->Err_0,
        fed_apart(apart, c) is Ok ==> fed_apart(apart, c)->Ok_0.len() >= 1 && frames_summed(
            fed_apart(apart, c)->Ok_0,
            fed(folded, c)->Ok_0,
        ),
{
    if fed_apart(apart, c) is Ok {
        let next = fed_apart(apart, c)->Ok_0;
        let goal = fed(folded, c)->Ok_0;
        let top = apart.last();
        assert(summed(apart[apart.len() - 1]) == folded[folded.len() - 1]);
        if c == '>' {
            lemma_summed_push(top, Tree::Shift(1));
        } else if c == '<' {
            lemma_summed_push(top, Tree::Shift(-1));
        } else if c == '+' {
            lemma_summed_push(top, Tree::Arith(1));
        } else if c == '-' {
            lemma_summed_push(top, Tree::Arith(-1));
        } else if c == '.' {
            lemma_summed_push(top, Tree::Output);
        } else if c == ',' {
            lemma_summed_push(top, Tree::Input);
        } else if c == '[' {
            assert(summed(Seq::<Tree>::empty()) == Seq::<Tree>::empty());
        } else if c == ']' {
            let outer = apart[apart.len() - 2];
            assert(summed(outer) == folded[folded.len() - 2]);
            lemma_summed_push(outer, Tree::Loop(top));
            assert(apart.drop_last().last() == outer);
            assert(folded.drop_last().last() == folded[folded.len() - 2]);
        }
        assert forall|j: int| 0 <= j < next.len() implies summed(#[trigger] next[j])
            == goal[j] by {
            if j < apart.len() {
                assert(summed(apart[j]) == folded[j]);
            }
        }
    }
}

/// The two readers fail on the same texts for the same reason, and hold
/// sequences of which the one is the sum of the other.
proof fn lemma_read_summed(text: Seq<char>)
    ensures
        read_apart(text) is Ok <==> read(text) is Ok,
        read_apart(text) is Err ==> read_apart(text)->Err_0 == read(text)->Err_0,
        read_apart(text) is Ok ==> read_apart(text)->Ok_0.len() >= 1 && frames_summed(
            read_apart(text)->Ok_0,
            read(text)->Ok_0,
        ),
    decreases text.len(),
{
    if text.len() == 0 {
        assert(summed(Seq::<Tree>::empty()) == Seq::<Tree>::empty());
    } else {
        lemma_read_summed(text.drop_last());
        if read_apart(text.drop_last()) is Ok {
            lemma_fed_summed(
                read_apart(text.drop_last())->Ok_0,
                read(text.drop_last())->Ok_0,
                text.last(),
            );
        }
    }
}

/// Run folding: the program of a text is the program with one node for
/// each character, with the neighbours summed; and the text is no program in
/// the one reading exactly where it is none in the other, for the same
/// reason.
pub proof fn lemma_parsed_is_summed(text: Seq<char>)
    ensures
        match spelled(text) {
            Ok(apart) => parsed(text) == Ok::<Seq<Tree>, SyntaxError>(summed(apart)),
            Err(e) => parsed(text) == Err::<Seq<Tree>, SyntaxError>(e),
        },
{
    lemma_read_summed(text);
    if read_apart(text) is Ok {
        assert(summed(read_apart(text)->Ok_0[0]) == read(text)->Ok_0[0]);
    }
}

} // verus!
