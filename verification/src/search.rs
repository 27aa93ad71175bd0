//! Finding the first index at which something holds.

use vstd::prelude::*;

verus! {

/// The least index in `from..to` at which `pred` holds.
pub open spec fn first_index(pred: spec_fn(int) -> bool, from: int, to: int) -> Option<int>
    decreases to - from,
{
    if from >= to {
        None
    } else if pred(from) {
        Some(from)
    } else {
        first_index(pred, from + 1, to)
    }
}

/// `first_index` finds an index at which the predicate holds and before
/// which it does not, and finds none only if there is none.
pub proof fn lemma_first_index(pred: spec_fn(int) -> bool, from: int, to: int)
    ensures
        match first_index(pred, from, to) {
            Some(i) => from <= i < to && pred(i) && forall|j: int| from <= j < i ==> !#[trigger] pred(j),
            None => forall|j: int| from <= j < to ==> !#[trigger] pred(j),
        },
    decreases to - from,
{
    if from < to && !pred(from) {
        lemma_first_index(pred, from + 1, to);
    }
}

/// The index at which the predicate holds first is what `first_index` finds.
pub proof fn lemma_first_index_found(pred: spec_fn(int) -> bool, from: int, to: int, i: int)
    requires
        from <= i < to,
        pred(i),
        forall|j: int| from <= j < i ==> !#[trigger] pred(j),
    ensures
        first_index(pred, from, to) == Some(i),
{
    lemma_first_index(pred, from, to);
}

/// Where the predicate holds nowhere, `first_index` finds nothing.
pub proof fn lemma_first_index_none(pred: spec_fn(int) -> bool, from: int, to: int)
    requires
        forall|j: int| from <= j < to ==> !#[trigger] pred(j),
    ensures
        first_index(pred, from, to) is None,
{
    lemma_first_index(pred, from, to);
}

} // verus!
