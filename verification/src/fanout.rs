//! Asking the segments one after the other, and what a search makes of their answers.
use turbovec::IdMapIndex;
use vstd::prelude::*;

use crate::idmap::{index_ids, index_is_empty};
use crate::score::{Hit, is_best};
use crate::state::{IndexState, routed};
use crate::topk::joined;

verus! {

/// `answer` is what `ask` gave for a segment and `k`. An empty segment is not
/// asked.
pub open spec fn answers<F>(ask: F, segment: IdMapIndex, k: usize, answer: Seq<Hit>) -> bool where
    F: Fn(&IdMapIndex, usize) -> Vec<Hit>,
 {
    if index_ids(segment) == Set::<u64>::empty() {
        answer == Seq::<Hit>::empty()
    } else {
        exists|given: Vec<Hit>| #[trigger]
            call_ensures(ask, (&segment, k), given) && given@ == answer
    }
}

/// `found` holds the answer of each of the segments, in their order.
pub open spec fn fan_out<F>(
    ask: F,
    segments: Seq<IdMapIndex>,
    k: usize,
    found: Seq<Seq<Hit>>,
) -> bool where F: Fn(&IdMapIndex, usize) -> Vec<Hit> {
    &&& found.len() == segments.len()
    &&& forall|i: int|
        0 <= i < segments.len() ==> answers(ask, #[trigger] segments[i], k, #[trigger] found[i])
}

/// `top` is what a search over the segments finds: the `k` best of all that they
/// answered. Nothing is asked where `k` is 0.
pub open spec fn finds<F>(
    ask: F,
    segments: Seq<IdMapIndex>,
    k: usize,
    top: Seq<Hit>,
) -> bool where F: Fn(&IdMapIndex, usize) -> Vec<Hit> {
    if k == 0 {
        top == Seq::<Hit>::empty()
    } else {
        exists|found: Seq<Seq<Hit>>| #[trigger]
            fan_out(ask, segments, k, found) && is_best(joined(found), k as nat, top)
    }
}

/// `answer` is what `ask` gave for a segment, `k` and the ids that the segment owns
/// among the allowed ones. A segment that owns none of them is not asked.
pub open spec fn answers_among<F>(
    ask: F,
    segment: IdMapIndex,
    k: usize,
    among: Seq<u64>,
    answer: Seq<Hit>,
) -> bool where F: Fn(&IdMapIndex, usize, &[u64]) -> Vec<Hit> {
    if among.len() == 0 {
        answer == Seq::<Hit>::empty()
    } else {
        exists|handed: &[u64], given: Vec<Hit>| #[trigger]
            call_ensures(ask, (&segment, k, handed), given) && handed@ == among && given@ == answer
    }
}

/// `found` holds the answer of each of the segments to a filtered search, in their
/// order.
pub open spec fn fan_out_among<F>(
    ask: F,
    state: IndexState,
    k: usize,
    allowed: Seq<u64>,
    found: Seq<Seq<Hit>>,
) -> bool where F: Fn(&IdMapIndex, usize, &[u64]) -> Vec<Hit> {
    &&& found.len() == state.segments().len()
    &&& forall|i: int|
        0 <= i < state.segments().len() ==> answers_among(
            ask,
            #[trigger] state.segments()[i],
            k,
            routed(allowed, state.owner, state.tag(i)),
            #[trigger] found[i],
        )
}

/// `top` is what a search among the allowed ids finds: the `k` best of all that the
/// segments answered. Nothing is asked where `k` is 0.
pub open spec fn finds_among<F>(
    ask: F,
    state: IndexState,
    k: usize,
    allowed: Seq<u64>,
    top: Seq<Hit>,
) -> bool where F: Fn(&IdMapIndex, usize, &[u64]) -> Vec<Hit> {
    if k == 0 {
        top == Seq::<Hit>::empty()
    } else {
        exists|found: Seq<Seq<Hit>>| #[trigger]
            fan_out_among(ask, state, k, allowed, found) && is_best(joined(found), k as nat, top)
    }
}

/// Ask a segment, unless it is empty.
pub(crate) fn collect<F>(ask: &F, segment: &IdMapIndex, k: usize) -> (given: Vec<Hit>) where
    F: Fn(&IdMapIndex, usize) -> Vec<Hit>,

    requires
        index_ids(*segment) != Set::<u64>::empty() ==> call_requires(*ask, (segment, k)),
    ensures
        answers(*ask, *segment, k, given@),
{
    if index_is_empty(segment) {
        Vec::new()
    } else {
        ask(segment, k)
    }
}

/// Ask a segment for its best among the allowed ids that it owns, unless it owns
/// none.
pub(crate) fn collect_among<F>(
    ask: &F,
    segment: &IdMapIndex,
    k: usize,
    among: &Vec<u64>,
) -> (given: Vec<Hit>) where F: Fn(&IdMapIndex, usize, &[u64]) -> Vec<Hit>
    requires
        among.len() > 0 ==> forall|handed: &[u64]|
            handed@ == among@ ==> #[trigger] call_requires(*ask, (segment, k, handed)),
    ensures
        answers_among(*ask, *segment, k, among@, given@),
{
    if among.len() == 0 {
        Vec::new()
    } else {
        ask(segment, k, among.as_slice())
    }
}

/// One more answer joins the others at their end.
pub(crate) proof fn lemma_join_one(found: Seq<Seq<Hit>>, answer: Seq<Hit>) -> (more: Seq<Seq<Hit>>)
    ensures
        more == found.push(answer),
        joined(more) == joined(found) + answer,
{
    let more = found.push(answer);
    assert(more.drop_last() =~= found);
    more
}

} // verus!
