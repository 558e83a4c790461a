//! The mathematical content of a notebook, what its operations answer, and
//! what follows from that.

use vstd::prelude::*;
use crate::error::NotebookError;
use crate::fragment::cell_index;
use crate::layout::{
    count_at, end_index, first_index, joined, joined_between, lemma_joined_depends_on_range,
    lemma_joined_splits, lemma_sum_depends_on_range, lemma_sum_splits, sum_below, sum_between,
    text_at,
};
use crate::position::{offset_position_spec, offset_range_spec, Position, Range};
use crate::text::{line_count, line_separator, newline_count};

verus! {

/// The mathematical content of a notebook.
pub struct NotebookView {
    /// The text in front of the first cell. It takes a line of its own.
    pub prefix: Seq<char>,
    /// The text behind the last cell.
    pub suffix: Seq<char>,
    /// The text of each cell, by cell index.
    pub cells: Map<i16, Seq<char>>,
}

/// What an offset query answers when `total` lines or characters lie in
/// front of the cell: the total, if thirty-two bits hold it.
pub open spec fn offset_result(total: nat) -> Result<u32, NotebookError> {
    if total <= u32::MAX {
        Ok(total as u32)
    } else {
        Err(NotebookError::ArithmeticOverflow)
    }
}

impl NotebookView {
    /// The number of lines of each cell, by cell index.
    pub open spec fn line_offset(self) -> Map<i16, nat> {
        Map::new(|j: i16| self.cells.contains_key(j), |j: i16| line_count(self.cells[j]))
    }

    /// The number of characters of each cell, by cell index.
    pub open spec fn char_offset(self) -> Map<i16, nat> {
        Map::new(|j: i16| self.cells.contains_key(j), |j: i16| self.cells[j].len())
    }

    /// The number of lines in front of the cell `index`: those of the prefix
    /// and those of every cell with a smaller index.
    pub open spec fn lines_before(self, index: i16) -> nat {
        line_count(self.prefix) + sum_below(self.line_offset(), index as int)
    }

    /// The number of characters in front of the cell `index`: those of the
    /// prefix and those of every cell with a smaller index. Line separators
    /// are not counted.
    pub open spec fn chars_before(self, index: i16) -> nat {
        self.prefix.len() + sum_below(self.char_offset(), index as int)
    }

    /// The synthetic document: the prefix on a line of its own, then every
    /// cell in ascending order of the indices, each followed by a line
    /// separator, then the suffix.
    pub open spec fn program(self) -> Seq<char> {
        self.prefix.push(line_separator()) + joined(self.cells) + self.suffix
    }

    /// The notebook after the cell `index` has got the text `text`.
    pub open spec fn with_cell(self, index: i16, text: Seq<char>) -> NotebookView {
        NotebookView {
            prefix: self.prefix,
            suffix: self.suffix,
            cells: self.cells.insert(index, text),
        }
    }

    /// The notebook after the cells of `inserts` have come in, one after the
    /// other; each is an index and a text.
    pub open spec fn with_cells(self, inserts: Seq<(i16, Seq<char>)>) -> NotebookView
        decreases inserts.len(),
    {
        if inserts.len() == 0 {
            self
        } else {
            self.with_cells(inserts.drop_last()).with_cell(inserts.last().0, inserts.last().1)
        }
    }

    /// The notebook without the cell `index`.
    pub open spec fn without_cell(self, index: i16) -> NotebookView {
        NotebookView { prefix: self.prefix, suffix: self.suffix, cells: self.cells.remove(index) }
    }

    /// What `get_line_offset` answers for `fragment`.
    pub open spec fn line_offset_of(self, fragment: Seq<char>) -> Result<u32, NotebookError> {
        match cell_index(fragment) {
            Some(index) => offset_result(self.lines_before(index)),
            None => Err(NotebookError::MalformedIdentifier),
        }
    }

    /// What `get_char_offset` answers for `fragment`.
    pub open spec fn char_offset_of(self, fragment: Seq<char>) -> Result<u32, NotebookError> {
        match cell_index(fragment) {
            Some(index) => offset_result(self.chars_before(index)),
            None => Err(NotebookError::MalformedIdentifier),
        }
    }

    /// Where `position` of the cell that `fragment` names lies in the
    /// synthetic document.
    pub open spec fn position_in_program(self, position: Position, fragment: Seq<char>) -> Result<
        Position,
        NotebookError,
    > {
        match self.line_offset_of(fragment) {
            Ok(offset) => offset_position_spec(position, offset as int),
            Err(e) => Err(e),
        }
    }

    /// Where `range` of the cell that `fragment` names lies in the synthetic
    /// document.
    pub open spec fn range_in_program(self, range: Range, fragment: Seq<char>) -> Result<
        Range,
        NotebookError,
    > {
        match self.line_offset_of(fragment) {
            Ok(offset) => offset_range_spec(range, offset as int),
            Err(e) => Err(e),
        }
    }
}

/// The prefix of a new notebook: the opening of a function that holds the
/// cells.
pub open spec fn default_prefix() -> Seq<char> {
    "fn main() {"@
}

/// The suffix of a new notebook: the closing brace of that function.
pub open spec fn default_suffix() -> Seq<char> {
    "}"@
}

/// The wrapper of a new notebook is one line that opens a function, and a
/// closing brace.
pub proof fn lemma_default_wrapper()
    ensures
        default_prefix().len() == 11,
        line_count(default_prefix()) == 1,
        default_suffix() == seq!['}'],
{
    reveal_strlit("fn main() {");
    reveal_strlit("}");
    reveal_with_fuel(newline_count, 12);
    assert(default_suffix() =~= seq!['}']);
}

/// A cell that comes in replaces the text and both counts of its index, and
/// touches no other index.
pub proof fn lemma_insert_replaces_one_cell(
    notebook: NotebookView,
    index: i16,
    text: Seq<char>,
    other: i16,
)
    ensures
        notebook.with_cell(index, text).prefix == notebook.prefix,
        notebook.with_cell(index, text).suffix == notebook.suffix,
        notebook.with_cell(index, text).cells == notebook.cells.insert(index, text),
        notebook.with_cell(index, text).line_offset() == notebook.line_offset().insert(
            index,
            line_count(text),
        ),
        notebook.with_cell(index, text).char_offset() == notebook.char_offset().insert(
            index,
            text.len(),
        ),
        other != index ==> {
            let after = notebook.with_cell(index, text);
            &&& after.cells.contains_key(other) == notebook.cells.contains_key(other)
            &&& after.cells.contains_key(other) ==> {
                &&& after.cells[other] == notebook.cells[other]
                &&& after.line_offset()[other] == notebook.line_offset()[other]
                &&& after.char_offset()[other] == notebook.char_offset()[other]
            }
        },
{
    let after = notebook.with_cell(index, text);
    assert(after.line_offset() =~= notebook.line_offset().insert(index, line_count(text)));
    assert(after.char_offset() =~= notebook.char_offset().insert(index, text.len()));
}

/// Giving a cell the same text twice is the same as giving it once, and of
/// two texts for one cell the later one stays.
pub proof fn lemma_insert_twice(
    notebook: NotebookView,
    index: i16,
    earlier: Seq<char>,
    later: Seq<char>,
)
    ensures
        notebook.with_cell(index, later).with_cell(index, later) == notebook.with_cell(
            index,
            later,
        ),
        notebook.with_cell(index, earlier).with_cell(index, later) == notebook.with_cell(
            index,
            later,
        ),
{
    assert(notebook.cells.insert(index, later).insert(index, later) =~= notebook.cells.insert(
        index,
        later,
    ));
    assert(notebook.cells.insert(index, earlier).insert(index, later) =~= notebook.cells.insert(
        index,
        later,
    ));
}

/// The text that the last of `inserts` for the cell `index` brings, if there
/// is one.
pub open spec fn last_text(inserts: Seq<(i16, Seq<char>)>, index: i16) -> Option<Seq<char>>
    decreases inserts.len(),
{
    if inserts.len() == 0 {
        None
    } else if inserts.last().0 == index {
        Some(inserts.last().1)
    } else {
        last_text(inserts.drop_last(), index)
    }
}

/// After any run of cells coming in, each cell holds the text that came last
/// for its index, and a cell for which none came is as it was. So the
/// notebook, and with it the synthetic document, depends on the last text of
/// each index alone, not on the order in which the indices came.
pub proof fn lemma_last_text_stays(
    notebook: NotebookView,
    inserts: Seq<(i16, Seq<char>)>,
    index: i16,
)
    ensures
        notebook.with_cells(inserts).prefix == notebook.prefix,
        notebook.with_cells(inserts).suffix == notebook.suffix,
        match last_text(inserts, index) {
            Some(text) => notebook.with_cells(inserts).cells.contains_key(index)
                && notebook.with_cells(inserts).cells[index] == text,
            None => notebook.with_cells(inserts).cells.contains_key(index)
                == notebook.cells.contains_key(index) && (notebook.cells.contains_key(index)
                ==> notebook.with_cells(inserts).cells[index] == notebook.cells[index]),
        },
    decreases inserts.len(),
{
    if inserts.len() > 0 {
        lemma_last_text_stays(notebook, inserts.drop_last(), index);
    }
}

/// The order in which two cells come in does not matter: the notebook, and
/// so its synthetic document and every offset, is the same either way.
pub proof fn lemma_insertion_order_is_irrelevant(
    notebook: NotebookView,
    index: i16,
    text: Seq<char>,
    other: i16,
    other_text: Seq<char>,
)
    requires
        index != other,
    ensures
        notebook.with_cell(index, text).with_cell(other, other_text) == notebook.with_cell(
            other,
            other_text,
        ).with_cell(index, text),
{
    assert(notebook.cells.insert(index, text).insert(other, other_text) =~= notebook.cells.insert(
        other,
        other_text,
    ).insert(index, text));
}

/// The synthetic document holds the cells in ascending order of their
/// indices: behind the prefix line come all cells with an index below
/// `index`, then the cell `index` with its line separator, then all cells
/// with a greater index, then the suffix.
pub proof fn lemma_program_in_ascending_order(notebook: NotebookView, index: i16)
    ensures
        notebook.program() == notebook.prefix.push(line_separator()) + joined_between(
            notebook.cells,
            first_index(),
            index as int,
        ) + text_at(notebook.cells, index as int) + joined_between(
            notebook.cells,
            index + 1,
            end_index(),
        ) + notebook.suffix,
{
    let cells = notebook.cells;
    let head = notebook.prefix.push(line_separator());
    let below = joined_between(cells, first_index(), index as int);
    let here = text_at(cells, index as int);
    let above = joined_between(cells, index + 1, end_index());
    lemma_joined_at(cells, index);
    assert(joined(cells) == below + here + above);
    assert(head + (below + here + above) =~= head + below + here + above);
}

/// The cells split at `index`: those below it, the cell itself, those above.
proof fn lemma_joined_at(cells: Map<i16, Seq<char>>, index: i16)
    ensures
        joined(cells) == joined_between(cells, first_index(), index as int) + text_at(
            cells,
            index as int,
        ) + joined_between(cells, index + 1, end_index()),
{
    lemma_joined_splits(cells, first_index(), index as int, end_index());
    lemma_joined_splits(cells, index as int, index + 1, end_index());
    assert(joined_between(cells, index as int, index as int) == Seq::<char>::empty());
    assert(joined_between(cells, index as int, index + 1) =~= text_at(cells, index as int));
    let below = joined_between(cells, first_index(), index as int);
    let here = text_at(cells, index as int);
    let above = joined_between(cells, index + 1, end_index());
    assert(below + (here + above) =~= below + here + above);
}

/// The counts split at `index`, for a sum up to a greater index `other`.
proof fn lemma_sum_at(counts: Map<i16, nat>, index: i16, other: i16)
    requires
        index < other,
    ensures
        sum_below(counts, other as int) == sum_below(counts, index as int) + count_at(
            counts,
            index as int,
        ) + sum_between(counts, index + 1, other as int),
{
    lemma_sum_splits(counts, first_index(), index as int, other as int);
    lemma_sum_splits(counts, index as int, index + 1, other as int);
    assert(sum_between(counts, index as int, index as int) == 0);
}

/// Between two notebooks that differ in the cell `index` alone, the sums up
/// to `other` differ by what that cell counts, and only if it lies in front
/// of `other`.
proof fn lemma_sum_differs_at(
    counts: Map<i16, nat>,
    others: Map<i16, nat>,
    index: i16,
    other: i16,
)
    requires
        forall|j: int| j != index ==> count_at(counts, j) == count_at(others, j),
    ensures
        other <= index ==> sum_below(counts, other as int) == sum_below(others, other as int),
        other > index ==> sum_below(counts, other as int) + count_at(others, index as int)
            == sum_below(others, other as int) + count_at(counts, index as int),
{
    if other <= index {
        lemma_sum_depends_on_range(counts, others, first_index(), other as int);
    } else {
        lemma_sum_at(counts, index, other);
        lemma_sum_at(others, index, other);
        lemma_sum_depends_on_range(counts, others, first_index(), index as int);
        lemma_sum_depends_on_range(counts, others, index + 1, other as int);
    }
}

/// A cell that comes in leaves the offsets of the cells up to its own index
/// as they were, and moves the offsets of the cells behind it by the
/// difference between what it counts now and what it counted before.
pub proof fn lemma_insert_moves_later_cells(
    notebook: NotebookView,
    index: i16,
    text: Seq<char>,
    other: i16,
)
    ensures
        other <= index ==> {
            &&& notebook.with_cell(index, text).lines_before(other) == notebook.lines_before(other)
            &&& notebook.with_cell(index, text).chars_before(other) == notebook.chars_before(other)
        },
        other > index ==> {
            &&& notebook.with_cell(index, text).lines_before(other) + count_at(
                notebook.line_offset(),
                index as int,
            ) == notebook.lines_before(other) + line_count(text)
            &&& notebook.with_cell(index, text).chars_before(other) + count_at(
                notebook.char_offset(),
                index as int,
            ) == notebook.chars_before(other) + text.len()
        },
{
    let after = notebook.with_cell(index, text);
    lemma_sum_differs_at(after.line_offset(), notebook.line_offset(), index, other);
    lemma_sum_differs_at(after.char_offset(), notebook.char_offset(), index, other);
}

/// A cell with an empty text adds nothing to the offset of any cell: the
/// offsets are those of the notebook without that cell. In the synthetic
/// document it is an empty line at its place among the cells.
pub proof fn lemma_empty_cell(notebook: NotebookView, index: i16, other: i16)
    ensures
        notebook.with_cell(index, Seq::empty()).line_offset()[index] == 0,
        notebook.with_cell(index, Seq::empty()).char_offset()[index] == 0,
        notebook.with_cell(index, Seq::empty()).lines_before(other) == notebook.without_cell(
            index,
        ).lines_before(other),
        notebook.with_cell(index, Seq::empty()).chars_before(other) == notebook.without_cell(
            index,
        ).chars_before(other),
        notebook.with_cell(index, Seq::empty()).program() == notebook.prefix.push(line_separator())
            + joined_between(notebook.without_cell(index).cells, first_index(), index as int)
            + seq![line_separator()] + joined_between(
            notebook.without_cell(index).cells,
            index + 1,
            end_index(),
        ) + notebook.suffix,
{
    let with_empty = notebook.with_cell(index, Seq::empty());
    let without = notebook.without_cell(index);
    lemma_sum_differs_at(with_empty.line_offset(), without.line_offset(), index, other);
    lemma_sum_differs_at(with_empty.char_offset(), without.char_offset(), index, other);
    lemma_program_in_ascending_order(with_empty, index);
    lemma_joined_depends_on_range(with_empty.cells, without.cells, first_index(), index as int);
    lemma_joined_depends_on_range(with_empty.cells, without.cells, index + 1, end_index());
    assert(text_at(with_empty.cells, index as int) =~= seq![line_separator()]);
}

} // verus!
