//! Walking through a map of cell indices in ascending order.
//!
//! A walk hands out the entries of the map one by one. These lemmas say what
//! a sum, or a joined text, over the indices holds when the walk has taken
//! some of the entries, in terms of the index that the walk has reached.

use std::collections::BTreeMap;
use vstd::prelude::*;
use vstd::std_specs::btree::{increasing_seq, spec_btree_map_iter};
use vstd::std_specs::cmp::OrdSpec;
use vstd::std_specs::iter::IteratorSpec;
use crate::layout::{
    end_index, first_index, joined, joined_between, lemma_joined_of_nothing, lemma_joined_splits,
    lemma_sum_of_nothing, lemma_sum_splits, sum_below,
};
use crate::text::line_separator;

verus! {

/// Whether `entries` holds every entry of `cells` once, in ascending order of
/// the keys.
pub open spec fn in_order<V>(cells: Map<i16, V>, entries: Seq<(&i16, &V)>) -> bool {
    &&& forall|i: int|
        0 <= i < entries.len() ==> {
            &&& cells.contains_key(*(#[trigger] entries[i]).0)
            &&& cells[*entries[i].0] == *entries[i].1
        }
    &&& forall|j: i16|
        cells.contains_key(j) ==> exists|i: int|
            0 <= i < entries.len() && *(#[trigger] entries[i]).0 == j
    &&& forall|i: int, k: int|
        0 <= i < k < entries.len() ==> *(#[trigger] entries[i]).0 < *(#[trigger] entries[k]).0
}

/// A walk through the map meets every entry once, in ascending order of the
/// keys.
pub proof fn lemma_walk_in_order<V>(cells: &BTreeMap<i16, V>, entries: Seq<(&i16, &V)>)
    requires
        entries == spec_btree_map_iter(cells).remaining(),
        increasing_seq(entries.map_values(|kv: (&i16, &V)| *kv.0)),
    ensures
        in_order(cells@, entries),
{
    let keys = entries.map_values(|kv: (&i16, &V)| *kv.0);
    assert forall|i: int, k: int| 0 <= i < k < entries.len() implies *(#[trigger] entries[i]).0
        < *(#[trigger] entries[k]).0 by {
        assert(keys[i].cmp_spec(&keys[k]) is Less);
    }
    assert forall|j: i16| cells@.contains_key(j) implies exists|i: int|
        0 <= i < entries.len() && *(#[trigger] entries[i]).0 == j by {
        assert(entries.contains((&j, &cells@[j])));
        let i = choose|i: int| 0 <= i < entries.len() && entries[i] == (&j, &cells@[j]);
        assert(*entries[i].0 == j);
    }
}

/// The least index that a key behind the first `done` entries can have.
pub open spec fn reached<V>(entries: Seq<(&i16, &V)>, done: int) -> int {
    if done <= 0 {
        first_index()
    } else {
        *entries[done - 1].0 + 1
    }
}

/// Behind the first `done` entries come only keys from `reached` on, and the
/// next entry is the first of them.
pub proof fn lemma_nothing_skipped<V>(cells: Map<i16, V>, entries: Seq<(&i16, &V)>, done: int)
    requires
        in_order(cells, entries),
        0 <= done <= entries.len(),
    ensures
        first_index() <= reached(entries, done) <= end_index(),
        done < entries.len() ==> reached(entries, done) <= *entries[done].0,
        forall|j: i16|
            reached(entries, done) <= j && cells.contains_key(j) ==> done < entries.len()
                && *entries[done].0 <= j,
{
    assert forall|j: i16| reached(entries, done) <= j && cells.contains_key(j) implies done
        < entries.len() && *entries[done].0 <= j by {
        let i = choose|i: int| 0 <= i < entries.len() && *(#[trigger] entries[i]).0 == j;
        if i < done {
            if i < done - 1 {
                assert(*entries[i].0 < *entries[done - 1].0);
            }
        } else if i > done {
            assert(*entries[done].0 < *entries[i].0);
        }
    }
    if 0 < done < entries.len() {
        assert(*entries[done - 1].0 < *entries[done].0);
    }
}

/// Taking one more entry into a sum adds the count of that entry's key.
pub proof fn lemma_sum_takes_entry<V>(
    cells: Map<i16, V>,
    entries: Seq<(&i16, &V)>,
    done: int,
    counts: Map<i16, nat>,
)
    requires
        in_order(cells, entries),
        0 <= done < entries.len(),
        forall|j: i16| counts.contains_key(j) <==> cells.contains_key(j),
    ensures
        sum_below(counts, reached(entries, done + 1)) == sum_below(counts, reached(entries, done))
            + counts[*entries[done].0],
{
    let key = *entries[done].0;
    lemma_nothing_skipped(cells, entries, done);
    lemma_sum_of_nothing(counts, reached(entries, done), key as int);
    lemma_sum_splits(counts, first_index(), reached(entries, done), key as int);
    assert(counts.contains_key(key));
}

/// Where no entry is left in front of `index`, the sum up to `index` is
/// the sum over the entries taken so far.
pub proof fn lemma_sum_complete<V>(
    cells: Map<i16, V>,
    entries: Seq<(&i16, &V)>,
    done: int,
    counts: Map<i16, nat>,
    index: int,
)
    requires
        in_order(cells, entries),
        0 <= done <= entries.len(),
        forall|j: i16| counts.contains_key(j) <==> cells.contains_key(j),
        reached(entries, done) <= index,
        done < entries.len() ==> index <= *entries[done].0,
    ensures
        sum_below(counts, index) == sum_below(counts, reached(entries, done)),
{
    lemma_nothing_skipped(cells, entries, done);
    lemma_sum_of_nothing(counts, reached(entries, done), index);
    lemma_sum_splits(counts, first_index(), reached(entries, done), index);
}

/// Taking one more entry into the synthetic document adds the text of that
/// entry's cell and a line separator.
pub proof fn lemma_joined_takes_entry<V>(
    cells: Map<i16, V>,
    entries: Seq<(&i16, &V)>,
    done: int,
    texts: Map<i16, Seq<char>>,
)
    requires
        in_order(cells, entries),
        0 <= done < entries.len(),
        forall|j: i16| texts.contains_key(j) <==> cells.contains_key(j),
    ensures
        joined_between(texts, first_index(), reached(entries, done + 1)) == joined_between(
            texts,
            first_index(),
            reached(entries, done),
        ) + texts[*entries[done].0].push(line_separator()),
{
    let key = *entries[done].0;
    lemma_nothing_skipped(cells, entries, done);
    lemma_joined_of_nothing(texts, reached(entries, done), key as int);
    lemma_joined_splits(texts, first_index(), reached(entries, done), key as int);
    assert(texts.contains_key(key));
    assert(joined_between(texts, first_index(), reached(entries, done)) + Seq::<char>::empty()
        =~= joined_between(texts, first_index(), reached(entries, done)));
}

/// Behind the last entry no key is left.
pub proof fn lemma_joined_complete<V>(
    cells: Map<i16, V>,
    entries: Seq<(&i16, &V)>,
    texts: Map<i16, Seq<char>>,
)
    requires
        in_order(cells, entries),
        forall|j: i16| texts.contains_key(j) <==> cells.contains_key(j),
    ensures
        joined(texts) == joined_between(
            texts,
            first_index(),
            reached(entries, entries.len() as int),
        ),
{
    let last = reached(entries, entries.len() as int);
    lemma_nothing_skipped(cells, entries, entries.len() as int);
    lemma_joined_of_nothing(texts, last, end_index());
    lemma_joined_splits(texts, first_index(), last, end_index());
    assert(joined_between(texts, first_index(), last) + Seq::<char>::empty() =~= joined_between(
        texts,
        first_index(),
        last,
    ));
}

} // verus!
