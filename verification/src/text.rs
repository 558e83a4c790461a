//! How many lines and characters a text has.

use vstd::prelude::*;

verus! {

/// The line separator that the synthetic document puts after each cell.
pub open spec fn line_separator() -> char {
    '\n'
}

/// The number of line feeds in `text`.
pub open spec fn newline_count(text: Seq<char>) -> nat
    decreases text.len(),
{
    if text.len() == 0 {
        0
    } else {
        newline_count(text.drop_last()) + if text.last() == '\n' {
            1nat
        } else {
            0nat
        }
    }
}

/// The number of lines of `text`: each line feed ends a line, and what
/// follows the last line feed is one more line unless it is empty. A carriage
/// return before a line feed belongs to the line ending; alone it ends
/// nothing. The empty text has no line.
pub open spec fn line_count(text: Seq<char>) -> nat {
    newline_count(text) + if text.len() > 0 && text.last() != '\n' {
        1nat
    } else {
        0nat
    }
}

/// A text has at most as many lines as characters.
pub proof fn lemma_line_count_bounded(text: Seq<char>)
    ensures
        newline_count(text) <= text.len(),
        line_count(text) <= text.len(),
    decreases text.len(),
{
    if text.len() > 0 {
        lemma_line_count_bounded(text.drop_last());
    }
}

/// The size of a text, as the notebook keeps it for each cell.
#[derive(Clone, Copy, Debug, PartialEq, Eq, Structural)]
pub struct TextSize {
    /// The number of lines.
    pub lines: usize,
    /// The number of characters.
    pub chars: usize,
}

/// Counts the lines and the characters of `text`.
pub fn measure(text: &str) -> (size: TextSize)
    ensures
        size.lines == line_count(text@),
        size.chars == text@.len(),
{
    let chars: usize = text.unicode_len();
    let mut newlines: usize = 0;
    let mut open_line: bool = false;
    for c in it: text.chars()
        invariant
            it.seq() == text@,
            chars == text@.len(),
            newlines == newline_count(text@.take(it.index())),
            newlines <= it.index(),
            open_line <==> (it.index() > 0 && text@[it.index() - 1] != '\n'),
            open_line ==> newlines < it.index(),
    {
        proof {
            let i = it.index();
            assert(text@.take(i + 1).drop_last() =~= text@.take(i));
            lemma_line_count_bounded(text@.take(i));
        }
        if c == '\n' {
            newlines = newlines + 1;
            open_line = false;
        } else {
            open_line = true;
        }
    }
    proof {
        assert(text@.take(text@.len() as int) =~= text@);
    }
    let lines: usize = if open_line {
        newlines + 1
    } else {
        newlines
    };
    TextSize { lines, chars }
}

} // verus!
