//! The notebook: the cells of one open document, and the offsets of each cell
//! in the synthetic document.

use std::collections::BTreeMap;
use vstd::prelude::*;
use vstd::std_specs::iter::IteratorSpec;
use vstd::string::StringExecFns;
use crate::error::NotebookError;
use crate::fragment::{cell_index, parse_index};
use crate::layout::{first_index, joined_between, lemma_sum_grows, sum_below};
use crate::position::{Position, Range};
use crate::text::{line_count, line_separator, measure, TextSize};
use crate::view::{default_prefix, default_suffix, offset_result, NotebookView};
use crate::walk::{
    in_order, lemma_joined_complete, lemma_joined_takes_entry, lemma_sum_complete,
    lemma_sum_takes_entry, lemma_walk_in_order, reached,
};

verus! {

/// One cell as the notebook keeps it: its text, and the size of that text as
/// it was measured when the text came in.
#[derive(Debug)]
struct Cell {
    text: String,
    size: TextSize,
}

impl Clone for Cell {
    fn clone(&self) -> (copy: Self)
        ensures
            copy == *self,
    {
        Cell { text: self.text.clone(), size: self.size }
    }
}

impl Cell {
    /// Whether the kept size is the size of the kept text.
    spec fn measured(&self) -> bool {
        &&& self.size.lines == line_count(self.text@)
        &&& self.size.chars == self.text@.len()
    }
}

/// Whether every cell's kept size is the size of its text.
spec fn all_measured(cells: Map<i16, Cell>) -> bool {
    forall|j: i16| cells.contains_key(j) ==> (#[trigger] cells[j]).measured()
}

/// The cells of one open notebook document.
///
/// Beside each cell's text the notebook keeps the number of its lines and of
/// its characters, which are measured once, when the text comes in. An offset
/// query adds these numbers up; no running total is kept.
#[derive(Debug)]
pub struct Notebook {
    prefix: String,
    prefix_size: TextSize,
    suffix: String,
    cells: BTreeMap<i16, Cell>,
}

impl View for Notebook {
    type V = NotebookView;

    closed spec fn view(&self) -> NotebookView {
        NotebookView {
            prefix: self.prefix@,
            suffix: self.suffix@,
            cells: Map::new(|j: i16| self.cells@.contains_key(j), |j: i16| self.cells@[j].text@),
        }
    }
}

impl Notebook {
    #[verifier::type_invariant]
    spec fn well_formed(&self) -> bool {
        &&& self.prefix_size.lines == line_count(self.prefix@)
        &&& self.prefix_size.chars == self.prefix@.len()
        &&& all_measured(self.cells@)
    }

    /// The per-cell counts that an offset query sums up.
    spec fn counts(&self, lines: bool) -> Map<i16, nat> {
        if lines {
            self@.line_offset()
        } else {
            self@.char_offset()
        }
    }

    /// The count of the prefix that an offset query starts from.
    spec fn prefix_count(&self, lines: bool) -> nat {
        if lines {
            line_count(self.prefix@)
        } else {
            self.prefix@.len()
        }
    }

    /// Sums the lines, or else the characters, of the prefix and of every
    /// cell in front of the cell `index`. The cells are taken in ascending
    /// order, up to the first that is not in front of `index`.
    fn total_before(&self, index: i16, lines: bool) -> (total: Result<u32, NotebookError>)
        ensures
            total == offset_result(
                self.prefix_count(lines) + sum_below(self.counts(lines), index as int),
            ),
    {
        proof {
            use_type_invariant(self);
        }
        let ghost counts = self.counts(lines);
        let ghost start = self.prefix_count(lines);
        let first: usize = if lines {
            self.prefix_size.lines
        } else {
            self.prefix_size.chars
        };
        if first > u32::MAX as usize {
            return Err(NotebookError::ArithmeticOverflow);
        }
        let mut total: u32 = first as u32;
        let entries = self.cells.iter();
        let ghost walk = entries.remaining();
        proof {
            lemma_walk_in_order(&self.cells, walk);
        }
        for entry in it: entries
            invariant
                it.seq() == walk,
                in_order(self.cells@, walk),
                all_measured(self.cells@),
                counts == self.counts(lines),
                start == self.prefix_count(lines),
                total == start + sum_below(counts, reached(walk, it.index())),
                reached(walk, it.index()) <= index,
        {
            let (key, cell) = entry;
            if *key >= index {
                proof {
                    lemma_sum_complete(self.cells@, walk, it.index(), counts, index as int);
                }
                return Ok(total);
            }
            let count: usize = if lines {
                cell.size.lines
            } else {
                cell.size.chars
            };
            proof {
                lemma_sum_takes_entry(self.cells@, walk, it.index(), counts);
                lemma_sum_grows(counts, first_index(), *key + 1, index as int);
                assert(self.cells@[*key].measured());
                assert(count == counts[*key]);
            }
            if count > (u32::MAX - total) as usize {
                return Err(NotebookError::ArithmeticOverflow);
            }
            total = total + count as u32;
        }
        proof {
            lemma_sum_complete(self.cells@, walk, walk.len() as int, counts, index as int);
        }
        Ok(total)
    }

    /// Gives the cell that `fragment` names the text `text`, whether the
    /// notebook had such a cell or not. No other cell changes. A fragment
    /// identifier that names no cell index is refused, and the notebook stays
    /// as it was.
    pub fn insert_cell(&mut self, fragment: &str, text: String) -> (done: Result<(), NotebookError>)
        ensures
            done == match cell_index(fragment@) {
                Some(_) => Ok::<(), NotebookError>(()),
                None => Err(NotebookError::MalformedIdentifier),
            },
            final(self)@ == match cell_index(fragment@) {
                Some(index) => old(self)@.with_cell(index, text@),
                None => old(self)@,
            },
    {
        proof {
            use_type_invariant(&*self);
        }
        let index = match parse_index(fragment) {
            Ok(index) => index,
            Err(e) => {
                return Err(e);
            },
        };
        let size = measure(text.as_str());
        let ghost added = text@;
        let mut cells: BTreeMap<i16, Cell> = BTreeMap::new();
        std::mem::swap(&mut cells, &mut self.cells);
        cells.insert(index, Cell { text, size });
        self.cells = cells;
        assert(self@.cells =~= old(self)@.cells.insert(index, added));
        Ok(())
    }

    /// Assembles the synthetic document.
    pub fn get_program(&self) -> (program: String)
        ensures
            program@ == self@.program(),
    {
        let ghost texts = self@.cells;
        let mut program = self.prefix.clone();
        program.append("\n");
        proof {
            reveal_strlit("\n");
            assert(program@ =~= self.prefix@.push(line_separator()));
        }
        let entries = self.cells.iter();
        let ghost walk = entries.remaining();
        proof {
            lemma_walk_in_order(&self.cells, walk);
        }
        for entry in it: entries
            invariant
                it.seq() == walk,
                in_order(self.cells@, walk),
                texts == self@.cells,
                program@ == self.prefix@.push(line_separator()) + joined_between(
                    texts,
                    first_index(),
                    reached(walk, it.index()),
                ),
        {
            let (key, cell) = entry;
            let ghost before = program@;
            program.append(cell.text.as_str());
            program.append("\n");
            proof {
                reveal_strlit("\n");
                lemma_joined_takes_entry(self.cells@, walk, it.index(), texts);
                let head = self.prefix@.push(line_separator());
                let body = joined_between(texts, first_index(), reached(walk, it.index()));
                let tail = texts[*key].push(line_separator());
                assert(program@ =~= before + tail);
                assert((head + body) + tail =~= head + (body + tail));
            }
        }
        proof {
            lemma_joined_complete(self.cells@, walk, texts);
        }
        program.append(self.suffix.as_str());
        program
    }

    /// The number of lines that lie in front of the cell that `fragment`
    /// names in the synthetic document.
    pub fn get_line_offset(&self, fragment: &str) -> (offset: Result<u32, NotebookError>)
        ensures
            offset == self@.line_offset_of(fragment@),
    {
        match parse_index(fragment) {
            Ok(index) => self.total_before(index, true),
            Err(e) => Err(e),
        }
    }

    /// The number of characters of the prefix and of the cells that lie in
    /// front of the cell that `fragment` names.
    pub fn get_char_offset(&self, fragment: &str) -> (offset: Result<u32, NotebookError>)
        ensures
            offset == self@.char_offset_of(fragment@),
    {
        match parse_index(fragment) {
            Ok(index) => self.total_before(index, false),
            Err(e) => Err(e),
        }
    }

    /// Takes `position` from the cell that `fragment` names to the synthetic
    /// document, by adding the cell's line offset to its line. Where that
    /// cannot be done the position stays as it was.
    pub fn add_lines_to_position(&self, position: &mut Position, fragment: &str) -> (done: Result<
        (),
        NotebookError,
    >)
        ensures
            done == match self@.position_in_program(*old(position), fragment@) {
                Ok(_) => Ok::<(), NotebookError>(()),
                Err(e) => Err(e),
            },
            *final(position) == match self@.position_in_program(*old(position), fragment@) {
                Ok(moved) => moved,
                Err(_) => *old(position),
            },
    {
        let offset = match self.get_line_offset(fragment) {
            Ok(offset) => offset,
            Err(e) => {
                return Err(e);
            },
        };
        match position.to_synthetic(offset) {
            Ok(moved) => {
                *position = moved;
                Ok(())
            },
            Err(e) => Err(e),
        }
    }

    /// Takes `range` from the cell that `fragment` names to the synthetic
    /// document, by adding the cell's line offset to the lines of both ends.
    /// Where that cannot be done for both, the range stays as it was.
    pub fn add_lines_to_range(&self, range: &mut Range, fragment: &str) -> (done: Result<
        (),
        NotebookError,
    >)
        ensures
            done == match self@.range_in_program(*old(range), fragment@) {
                Ok(_) => Ok::<(), NotebookError>(()),
                Err(e) => Err(e),
            },
            *final(range) == match self@.range_in_program(*old(range), fragment@) {
                Ok(moved) => moved,
                Err(_) => *old(range),
            },
    {
        let offset = match self.get_line_offset(fragment) {
            Ok(offset) => offset,
            Err(e) => {
                return Err(e);
            },
        };
        match range.to_synthetic(offset) {
            Ok(moved) => {
                *range = moved;
                Ok(())
            },
            Err(e) => Err(e),
        }
    }
}

impl Default for Notebook {
    /// A notebook without cells, whose synthetic document wraps the cells in
    /// a `main` function.
    fn default() -> (notebook: Self)
        ensures
            notebook@ == (NotebookView {
                prefix: default_prefix(),
                suffix: default_suffix(),
                cells: Map::empty(),
            }),
    {
        let prefix = String::from_str("fn main() {");
        let suffix = String::from_str("}");
        let prefix_size = measure(prefix.as_str());
        let notebook = Notebook { prefix, prefix_size, suffix, cells: BTreeMap::new() };
        assert(notebook@.cells =~= Map::<i16, Seq<char>>::empty());
        notebook
    }
}

impl Clone for Notebook {
    fn clone(&self) -> (copy: Self)
        ensures
            copy@ == self@,
    {
        proof {
            use_type_invariant(self);
        }
        Notebook {
            prefix: self.prefix.clone(),
            prefix_size: self.prefix_size,
            suffix: self.suffix.clone(),
            cells: self.cells.clone(),
        }
    }
}

} // verus!
