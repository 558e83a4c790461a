//! How the cells lie in the synthetic document: in ascending order of their
//! indices, each followed by a line separator.
//!
//! Sums and joined texts are defined over a range of indices, `low` included
//! and `high` excluded, for any map from indices to counts or texts.

use vstd::prelude::*;
use crate::text::line_separator;

verus! {

/// The least index a cell can have, as a mathematical integer.
pub open spec fn first_index() -> int {
    i16::MIN as int
}

/// One more than the greatest index a cell can have.
pub open spec fn end_index() -> int {
    i16::MAX as int + 1
}

/// What the index `index` adds to a sum: its count, or nothing where
/// `counts` has none for it.
pub open spec fn count_at(counts: Map<i16, nat>, index: int) -> nat {
    if first_index() <= index < end_index() && counts.contains_key(index as i16) {
        counts[index as i16]
    } else {
        0
    }
}

/// The sum of the counts of the indices from `low` up to, not including,
/// `high`.
pub open spec fn sum_between(counts: Map<i16, nat>, low: int, high: int) -> nat
    decreases high - low,
{
    if high <= low {
        0
    } else {
        sum_between(counts, low, high - 1) + count_at(counts, high - 1)
    }
}

/// The sum of the counts of all indices below `index`.
pub open spec fn sum_below(counts: Map<i16, nat>, index: int) -> nat {
    sum_between(counts, first_index(), index)
}

/// What the cell `index` adds to the synthetic document: its text and a line
/// separator, or nothing where there is no such cell.
pub open spec fn text_at(cells: Map<i16, Seq<char>>, index: int) -> Seq<char> {
    if first_index() <= index < end_index() && cells.contains_key(index as i16) {
        cells[index as i16].push(line_separator())
    } else {
        Seq::empty()
    }
}

/// The texts of the cells with an index from `low` up to, not including,
/// `high`, in ascending order of their indices, each followed by a line
/// separator.
pub open spec fn joined_between(cells: Map<i16, Seq<char>>, low: int, high: int) -> Seq<char>
    decreases high - low,
{
    if high <= low {
        Seq::empty()
    } else {
        joined_between(cells, low, high - 1) + text_at(cells, high - 1)
    }
}

/// The texts of all cells, in ascending order of their indices, each
/// followed by a line separator.
pub open spec fn joined(cells: Map<i16, Seq<char>>) -> Seq<char> {
    joined_between(cells, first_index(), end_index())
}

/// A sum over a range is the sum over its lower part plus the sum over its
/// upper part, wherever the range is cut.
pub proof fn lemma_sum_splits(counts: Map<i16, nat>, low: int, mid: int, high: int)
    requires
        low <= mid <= high,
    ensures
        sum_between(counts, low, high) == sum_between(counts, low, mid) + sum_between(
            counts,
            mid,
            high,
        ),
    decreases high - mid,
{
    if mid < high {
        lemma_sum_splits(counts, low, mid, high - 1);
    }
}

/// A sum over more indices is no smaller.
pub proof fn lemma_sum_grows(counts: Map<i16, nat>, low: int, mid: int, high: int)
    requires
        mid <= high,
    ensures
        sum_between(counts, low, mid) <= sum_between(counts, low, high),
    decreases high - mid,
{
    if mid < high {
        lemma_sum_grows(counts, low, mid, high - 1);
    }
}

/// Two maps with the same counts over a range have the same sum over it.
pub proof fn lemma_sum_depends_on_range(
    counts: Map<i16, nat>,
    others: Map<i16, nat>,
    low: int,
    high: int,
)
    requires
        forall|j: int| low <= j < high ==> count_at(counts, j) == count_at(others, j),
    ensures
        sum_between(counts, low, high) == sum_between(others, low, high),
    decreases high - low,
{
    if low < high {
        lemma_sum_depends_on_range(counts, others, low, high - 1);
    }
}

/// Indices without a count, and counts of zero, add nothing to a sum.
pub proof fn lemma_sum_of_nothing(counts: Map<i16, nat>, low: int, high: int)
    requires
        forall|j: int| low <= j < high ==> count_at(counts, j) == 0,
    ensures
        sum_between(counts, low, high) == 0,
    decreases high - low,
{
    if low < high {
        lemma_sum_of_nothing(counts, low, high - 1);
    }
}

/// The cells of a range lie in the synthetic document in ascending order:
/// wherever the range is cut, the cells below the cut come first, and all of
/// them before any cell from the cut on.
pub proof fn lemma_joined_splits(cells: Map<i16, Seq<char>>, low: int, mid: int, high: int)
    requires
        low <= mid <= high,
    ensures
        joined_between(cells, low, high) == joined_between(cells, low, mid) + joined_between(
            cells,
            mid,
            high,
        ),
    decreases high - mid,
{
    if mid < high {
        lemma_joined_splits(cells, low, mid, high - 1);
        assert(joined_between(cells, low, mid) + (joined_between(cells, mid, high - 1) + text_at(
            cells,
            high - 1,
        )) =~= (joined_between(cells, low, mid) + joined_between(cells, mid, high - 1)) + text_at(
            cells,
            high - 1,
        ));
    } else {
        assert(joined_between(cells, low, mid) + Seq::<char>::empty() =~= joined_between(
            cells,
            low,
            mid,
        ));
    }
}

/// Two maps with the same cells over a range give the same text for it.
pub proof fn lemma_joined_depends_on_range(
    cells: Map<i16, Seq<char>>,
    others: Map<i16, Seq<char>>,
    low: int,
    high: int,
)
    requires
        forall|j: int| low <= j < high ==> text_at(cells, j) == text_at(others, j),
    ensures
        joined_between(cells, low, high) == joined_between(others, low, high),
    decreases high - low,
{
    if low < high {
        lemma_joined_depends_on_range(cells, others, low, high - 1);
    }
}

/// A range without cells adds nothing to the synthetic document.
pub proof fn lemma_joined_of_nothing(cells: Map<i16, Seq<char>>, low: int, high: int)
    requires
        forall|j: int| low <= j < high ==> text_at(cells, j) == Seq::<char>::empty(),
    ensures
        joined_between(cells, low, high) == Seq::<char>::empty(),
    decreases high - low,
{
    if low < high {
        lemma_joined_of_nothing(cells, low, high - 1);
    }
}

} // verus!
