//! The first index in a range at which a predicate holds.

use vstd::prelude::*;

verus! {

/// The lowest index from `from` up to, not including, `to` at which `pred` holds.
pub open spec fn first_index(pred: spec_fn(int) -> bool, from: int, to: int) -> Option<int>
    decreases to - from,
{
    if from >= to {
        None
    } else if pred(from) {
        Some(from)
    } else {
        first_index(pred, from + 1, to)
    }
}

/// `first_index` returns an index at which the predicate holds and skips none.
pub proof fn lemma_first_index(pred: spec_fn(int) -> bool, from: int, to: int)
    ensures
        match first_index(pred, from, to) {
            Some(p) => from <= p < to && pred(p) && forall|q: int|
                from <= q < p ==> !#[trigger] pred(q),
            None => forall|q: int| from <= q < to ==> !#[trigger] pred(q),
        },
    decreases to - from,
{
    if from < to && !pred(from) {
        lemma_first_index(pred, from + 1, to);
    }
}

/// An index at which the predicate holds, with none before it, is the first.
pub proof fn lemma_first_index_is(pred: spec_fn(int) -> bool, from: int, to: int, p: int)
    requires
        from <= p < to,
        pred(p),
        forall|q: int| from <= q < p ==> !#[trigger] pred(q),
    ensures
        first_index(pred, from, to) == Some(p),
{
    lemma_first_index(pred, from, to);
}

/// Where the predicate holds nowhere in the range, there is no first index.
pub proof fn lemma_first_index_none(pred: spec_fn(int) -> bool, from: int, to: int)
    requires
        forall|q: int| from <= q < to ==> !#[trigger] pred(q),
    ensures
        first_index(pred, from, to) is None,
{
    lemma_first_index(pred, from, to);
}

} // verus!
