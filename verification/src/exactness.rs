//! What a search over all segments finds, given what each segment finds.
use turbovec::IdMapIndex;
use vstd::prelude::*;
use vstd::set_lib::lemma_len_subset;

use crate::fanout::{answers, answers_among, fan_out, fan_out_among, finds, finds_among};
use crate::idmap::{index_ids, index_vectors};
use crate::laws::{law_remove_preserves, law_seal_preserves};
use crate::score::{
    Hit, is_best, is_nan, is_number, law_the_best_are_the_greatest, rank_of, value_of,
};
use crate::state::{IndexState, Owner, routed};
use crate::topk::{
    alike, disjoint, ids_of, is_top_k, joined, kept, law_a_full_answer_names_every_id,
    law_answers_agree, law_filtering_a_full_answer, law_merge_is_exact,
    law_merge_names_only_answered_ids, law_the_head_is_the_best, no_ties, union_of,
};

verus! {

/// The ids that each segment holds.
pub open spec fn segment_ids(state: IndexState) -> Seq<Set<u64>> {
    state.segments().map_values(|segment: IdMapIndex| index_ids(segment))
}

/// Each live id is in exactly one segment, and a segment holds nothing but live ids.
pub proof fn law_segments_part_the_ids(state: IndexState)
    requires
        state.consistent(),
    ensures
        disjoint(segment_ids(state)),
        union_of(segment_ids(state)) == state.ids(),
        forall|i: int|
            0 <= i < state.segments().len() ==> #[trigger] segment_ids(state)[i] == state.owned(
                state.tag(i),
            ),
{
    let parts = segment_ids(state);
    assert forall|i: int| 0 <= i < state.segments().len() implies #[trigger] parts[i]
        == state.owned(state.tag(i)) by {
        if i < state.sealed.len() {
            assert(index_ids(state.sealed[i as usize as int]) == state.owned(
                Owner::Sealed(i as usize),
            ));
        }
    }
    assert forall|p: int, q: int, id: u64|
        0 <= p < q < parts.len() && #[trigger] parts[p].contains(id) implies !(
    #[trigger] parts[q].contains(id)) by {
        assert(parts[p] == state.owned(state.tag(p)));
        assert(parts[q] == state.owned(state.tag(q)));
    }
    assert forall|id: u64| union_of(parts).contains(id) <==> state.ids().contains(id) by {
        if union_of(parts).contains(id) {
            let p = choose|p: int| 0 <= p < parts.len() && #[trigger] parts[p].contains(id);
            assert(parts[p] == state.owned(state.tag(p)));
        }
        if state.ids().contains(id) {
            assert(state.routes(id));
            let p = match state.owner[id] {
                Owner::Hot => state.sealed.len() as int,
                Owner::Sealed(s) => s as int,
            };
            assert(parts[p] == state.owned(state.tag(p)));
            assert(parts[p].contains(id));
        }
    }
    assert(union_of(parts) =~= state.ids());
}

/// The fan-out is exact: where each segment that is asked gives its own `k` best,
/// the search gives the `k` best of all live ids.
pub proof fn law_search_is_exact<F>(
    state: IndexState,
    ask: F,
    score: spec_fn(u64) -> u32,
    k: usize,
    top: Seq<Hit>,
) where F: Fn(&IdMapIndex, usize) -> Vec<Hit>
    requires
        state.consistent(),
        forall|id: u64| state.ids().contains(id) ==> !is_nan(#[trigger] score(id)),
        forall|i: int, given: Vec<Hit>|
            0 <= i < state.segments().len() && #[trigger] call_ensures(
                ask,
                (&state.segments()[i], k),
                given,
            ) ==> is_top_k(given@, index_ids(state.segments()[i]), score, k as nat),
        finds(ask, state.segments(), k, top),
    ensures
        is_top_k(top, state.ids(), score, k as nat),
{
    if k == 0 {
        assert(ids_of(top) =~= Seq::empty());
    } else {
        let found = choose|found: Seq<Seq<Hit>>| #[trigger]
            fan_out(ask, state.segments(), k, found) && is_best(joined(found), k as nat, top);
        law_segments_part_the_ids(state);
        let parts = segment_ids(state);
        assert forall|p: int| 0 <= p < parts.len() implies is_top_k(
            #[trigger] found[p],
            parts[p],
            score,
            k as nat,
        ) by {
            assert(answers(ask, state.segments()[p], k, found[p]));
            assert(parts[p] == index_ids(state.segments()[p]));
            if parts[p] == Set::<u64>::empty() {
                assert(found[p] == Seq::<Hit>::empty());
                assert(ids_of(found[p]) =~= Seq::empty());
            }
        }
        law_merge_is_exact(parts, found, score, k as nat, top);
    }
}

proof fn lemma_routed(allowed: Seq<u64>, owner: Map<u64, Owner>, tag: Owner)
    ensures
        routed(allowed, owner, tag).no_duplicates(),
        forall|id: u64| #[trigger]
            routed(allowed, owner, tag).contains(id) <==> allowed.contains(id)
                && owner.contains_key(id) && owner[id] == tag,
    decreases allowed.len(),
{
    broadcast use vstd::seq_lib::group_seq_properties;

    if allowed.len() > 0 {
        let front = allowed.drop_last();
        lemma_routed(front, owner, tag);
        assert(allowed =~= front.push(allowed.last()));
        let before = routed(front, owner, tag);
        assert(!front.contains(allowed.last()) ==> !before.contains(allowed.last()));
        assert(routed(allowed, owner, tag).no_duplicates()) by {
            let after = routed(allowed, owner, tag);
            assert forall|i: int, j: int| 0 <= i < j < after.len() implies after[i] != after[j] by {
                if after.len() > before.len() {
                    assert(before.contains(before[i]));
                }
            }
        }
    }
}

/// The list handed to a segment in a filtered search holds exactly the allowed ids
/// that the segment holds, each once.
pub proof fn law_segment_is_asked_for_its_own(state: IndexState, allowed: Seq<u64>, i: int)
    requires
        state.consistent(),
        0 <= i < state.segments().len(),
    ensures
        routed(allowed, state.owner, state.tag(i)).no_duplicates(),
        routed(allowed, state.owner, state.tag(i)).to_set() == allowed.to_set().intersect(
            index_ids(state.segments()[i]),
        ),
{
    law_segments_part_the_ids(state);
    let among = routed(allowed, state.owner, state.tag(i));
    lemma_routed(allowed, state.owner, state.tag(i));
    assert(segment_ids(state)[i] == state.owned(state.tag(i)));
    assert(among.to_set() =~= allowed.to_set().intersect(index_ids(state.segments()[i])));
}

/// The filtered search is exact too: where each segment that is asked gives its own
/// `k` best among the ids handed to it, the search gives the `k` best of the ids
/// that are both allowed and live. What is not live is ignored.
pub proof fn law_filtered_search_is_exact<F>(
    state: IndexState,
    ask: F,
    score: spec_fn(u64) -> u32,
    k: usize,
    allowed: Seq<u64>,
    top: Seq<Hit>,
) where F: Fn(&IdMapIndex, usize, &[u64]) -> Vec<Hit>
    requires
        state.consistent(),
        forall|id: u64| state.ids().contains(id) ==> !is_nan(#[trigger] score(id)),
        forall|i: int, handed: &[u64], given: Vec<Hit>|
            0 <= i < state.segments().len() && #[trigger] call_ensures(
                ask,
                (&state.segments()[i], k, handed),
                given,
            ) && handed@.to_set().subset_of(index_ids(state.segments()[i])) ==> is_top_k(
                given@,
                handed@.to_set(),
                score,
                k as nat,
            ),
        finds_among(ask, state, k, allowed, top),
    ensures
        is_top_k(top, allowed.to_set().intersect(state.ids()), score, k as nat),
{
    if k == 0 {
        assert(ids_of(top) =~= Seq::empty());
    } else {
        let found = choose|found: Seq<Seq<Hit>>| #[trigger]
            fan_out_among(ask, state, k, allowed, found) && is_best(joined(found), k as nat, top);
        law_segments_part_the_ids(state);
        let all = segment_ids(state);
        let parts = Seq::new(
            found.len(),
            |i: int| routed(allowed, state.owner, state.tag(i)).to_set(),
        );
        assert forall|p: int| 0 <= p < parts.len() implies #[trigger] parts[p]
            == allowed.to_set().intersect(all[p]) && is_top_k(
            found[p],
            parts[p],
            score,
            k as nat,
        ) by {
            let among = routed(allowed, state.owner, state.tag(p));
            law_segment_is_asked_for_its_own(state, allowed, p);
            assert(answers_among(ask, state.segments()[p], k, among, found[p]));
            if among.len() == 0 {
                assert(among =~= Seq::empty());
                assert(among.to_set() =~= Set::empty());
                assert(ids_of(found[p]) =~= Seq::empty());
            }
        }
        assert forall|p: int, q: int, id: u64|
            0 <= p < q < parts.len() && #[trigger] parts[p].contains(id) implies !(
        #[trigger] parts[q].contains(id)) by {
            assert(all[p].contains(id));
            assert(!all[q].contains(id));
        }
        let wanted = allowed.to_set().intersect(state.ids());
        assert forall|id: u64| union_of(parts).contains(id) <==> wanted.contains(id) by {
            if union_of(parts).contains(id) {
                let p = choose|p: int| 0 <= p < parts.len() && #[trigger] parts[p].contains(id);
                assert(all[p].contains(id));
                assert(union_of(all).contains(id));
            }
            if wanted.contains(id) {
                assert(union_of(all).contains(id));
                let p = choose|p: int| 0 <= p < all.len() && #[trigger] all[p].contains(id);
                assert(parts[p].contains(id));
            }
        }
        assert(union_of(parts) =~= wanted);
        law_merge_is_exact(parts, found, score, k as nat, top);
    }
}

/// Searching an index that holds nothing finds nothing.
pub proof fn law_empty_index_finds_nothing<F>(
    state: IndexState,
    ask: F,
    k: usize,
    top: Seq<Hit>,
) where F: Fn(&IdMapIndex, usize) -> Vec<Hit>
    requires
        state.consistent(),
        state.ids() == Set::<u64>::empty(),
        finds(ask, state.segments(), k, top),
    ensures
        top == Seq::<Hit>::empty(),
{
    if k > 0 {
        let found = choose|found: Seq<Seq<Hit>>| #[trigger]
            fan_out(ask, state.segments(), k, found) && is_best(joined(found), k as nat, top);
        law_segments_part_the_ids(state);
        if top.len() > 0 {
            law_merge_names_only_answered_ids(found, k as nat, top, 0);
            let p = choose|p: int| 0 <= p < found.len() && (#[trigger] found[p]).contains(top[0]);
            assert(segment_ids(state)[p] =~= Set::empty()) by {
                assert forall|id: u64| !segment_ids(state)[p].contains(id) by {
                    if segment_ids(state)[p].contains(id) {
                        assert(union_of(segment_ids(state)).contains(id));
                    }
                }
            }
            assert(answers(ask, state.segments()[p], k, found[p]));
        }
        assert(top =~= Seq::empty());
    }
}

/// A search names only live ids, where each segment names only ids that it holds: a
/// deleted id never comes back.
pub proof fn law_search_names_only_live_ids<F>(
    state: IndexState,
    ask: F,
    k: usize,
    top: Seq<Hit>,
    n: int,
) where F: Fn(&IdMapIndex, usize) -> Vec<Hit>
    requires
        state.consistent(),
        forall|i: int, given: Vec<Hit>, j: int|
            0 <= i < state.segments().len() && #[trigger] call_ensures(
                ask,
                (&state.segments()[i], k),
                given,
            ) && 0 <= j < given@.len() ==> index_ids(state.segments()[i]).contains(
                (#[trigger] given@[j]).0,
            ),
        finds(ask, state.segments(), k, top),
        0 <= n < top.len(),
    ensures
        state.ids().contains(top[n].0),
{
    if k > 0 {
        let found = choose|found: Seq<Seq<Hit>>| #[trigger]
            fan_out(ask, state.segments(), k, found) && is_best(joined(found), k as nat, top);
        law_segments_part_the_ids(state);
        law_merge_names_only_answered_ids(found, k as nat, top, n);
        let p = choose|p: int| 0 <= p < found.len() && (#[trigger] found[p]).contains(top[n]);
        let j = found[p].index_of(top[n]);
        assert(found[p][j] == top[n]);
        assert(answers(ask, state.segments()[p], k, found[p]));
        assert(segment_ids(state)[p].contains(top[n].0));
        assert(union_of(segment_ids(state)).contains(top[n].0));
    }
}

/// A filtered search names only ids that are allowed and live, where each segment
/// names only ids that were handed to it.
pub proof fn law_filtered_search_names_only_allowed_ids<F>(
    state: IndexState,
    ask: F,
    k: usize,
    allowed: Seq<u64>,
    top: Seq<Hit>,
    n: int,
) where F: Fn(&IdMapIndex, usize, &[u64]) -> Vec<Hit>
    requires
        forall|i: int, handed: &[u64], given: Vec<Hit>, j: int|
            0 <= i < state.segments().len() && #[trigger] call_ensures(
                ask,
                (&state.segments()[i], k, handed),
                given,
            ) && 0 <= j < given@.len() ==> handed@.contains((#[trigger] given@[j]).0),
        finds_among(ask, state, k, allowed, top),
        0 <= n < top.len(),
    ensures
        allowed.contains(top[n].0),
        state.ids().contains(top[n].0),
{
    if k > 0 {
        let found = choose|found: Seq<Seq<Hit>>| #[trigger]
            fan_out_among(ask, state, k, allowed, found) && is_best(joined(found), k as nat, top);
        law_merge_names_only_answered_ids(found, k as nat, top, n);
        let p = choose|p: int| 0 <= p < found.len() && (#[trigger] found[p]).contains(top[n]);
        let j = found[p].index_of(top[n]);
        assert(found[p][j] == top[n]);
        let among = routed(allowed, state.owner, state.tag(p));
        assert(answers_among(ask, state.segments()[p], k, among, found[p]));
        lemma_routed(allowed, state.owner, state.tag(p));
        assert(among.contains(top[n].0));
    }
}

/// The segment that owns an allowed id is handed it, once, and no other segment is.
pub proof fn law_each_allowed_id_goes_to_its_owner(
    allowed: Seq<u64>,
    owner: Map<u64, Owner>,
    tag: Owner,
    id: u64,
)
    ensures
        routed(allowed, owner, tag).no_duplicates(),
        routed(allowed, owner, tag).contains(id) <==> allowed.contains(id) && owner.contains_key(
            id,
        ) && owner[id] == tag,
{
    lemma_routed(allowed, owner, tag);
}

proof fn lemma_joined_is_flat(found: Seq<Seq<Hit>>)
    ensures
        joined(found) == found.flatten(),
    decreases found.len(),
{
    if found.len() > 0 {
        lemma_joined_is_flat(found.drop_last());
        found.drop_last().lemma_flatten_push(found.last());
        assert(found.drop_last().push(found.last()) =~= found);
    }
}

/// Whatever the segments answer, a search asks every one that holds anything, takes
/// each answer whole, and keeps `k` hits of them all, or all where there are fewer. It
/// leaves no hit out for one of a lesser score.
pub proof fn law_a_search_asks_every_segment<F>(
    ask: F,
    segments: Seq<IdMapIndex>,
    k: usize,
    top: Seq<Hit>,
) -> (found: Seq<Seq<Hit>>) where F: Fn(&IdMapIndex, usize) -> Vec<Hit>
    requires
        finds(ask, segments, k, top),
        k > 0,
    ensures
        found.len() == segments.len(),
        forall|i: int|
            0 <= i < segments.len() ==> if index_vectors(#[trigger] segments[i]).dom() == Set::<
                u64,
            >::empty() {
                found[i].len() == 0
            } else {
                exists|given: Vec<Hit>| #[trigger]
                    call_ensures(ask, (&segments[i], k), given) && given@ == found[i]
            },
        top.len() == if k < found.flatten().len() {
            k as nat
        } else {
            found.flatten().len()
        },
        top.to_multiset().subset_of(found.flatten().to_multiset()),
        (forall|n: int|
            0 <= n < found.flatten().len() ==> is_number((#[trigger] found.flatten()[n]).1))
            ==> forall|h: Hit, n: int|
            0 <= n < top.len() && #[trigger] found.flatten().to_multiset().sub(
                top.to_multiset(),
            ).count(h) > 0 ==> value_of(h.1) <= value_of((#[trigger] top[n]).1),
{
    let found = choose|found: Seq<Seq<Hit>>| #[trigger]
        fan_out(ask, segments, k, found) && is_best(joined(found), k as nat, top);
    lemma_joined_is_flat(found);
    law_the_best_are_the_greatest(joined(found), k as nat, top);
    assert forall|i: int| 0 <= i < segments.len() implies if index_vectors(
        #[trigger] segments[i],
    ).dom() == Set::<u64>::empty() {
        found[i].len() == 0
    } else {
        exists|given: Vec<Hit>| #[trigger]
            call_ensures(ask, (&segments[i], k), given) && given@ == found[i]
    } by {
        assert(answers(ask, segments[i], k, found[i]));
    }
    found
}

/// Whatever the segments answer, a filtered search asks every one that owns an allowed id,
/// hands it just those, takes each answer whole, and keeps `k` hits of them all, or all
/// where there are fewer. It leaves no hit out for one of a lesser score.
pub proof fn law_a_filtered_search_asks_every_owner<F>(
    ask: F,
    state: IndexState,
    k: usize,
    allowed: Seq<u64>,
    top: Seq<Hit>,
) -> (found: Seq<Seq<Hit>>) where F: Fn(&IdMapIndex, usize, &[u64]) -> Vec<Hit>
    requires
        finds_among(ask, state, k, allowed, top),
        k > 0,
    ensures
        found.len() == state.segments().len(),
        forall|i: int|
            0 <= i < state.segments().len() && routed(allowed, state.owner, state.tag(i)).len()
                == 0 ==> (#[trigger] found[i]).len() == 0,
        forall|i: int|
            0 <= i < state.segments().len() && routed(allowed, state.owner, state.tag(i)).len() > 0
                ==> answers_among(
                ask,
                state.segments()[i],
                k,
                routed(allowed, state.owner, state.tag(i)),
                #[trigger] found[i],
            ),
        top.len() == if k < found.flatten().len() {
            k as nat
        } else {
            found.flatten().len()
        },
        top.to_multiset().subset_of(found.flatten().to_multiset()),
        (forall|n: int|
            0 <= n < found.flatten().len() ==> is_number((#[trigger] found.flatten()[n]).1))
            ==> forall|h: Hit, n: int|
            0 <= n < top.len() && #[trigger] found.flatten().to_multiset().sub(
                top.to_multiset(),
            ).count(h) > 0 ==> value_of(h.1) <= value_of((#[trigger] top[n]).1),
{
    let found = choose|found: Seq<Seq<Hit>>| #[trigger]
        fan_out_among(ask, state, k, allowed, found) && is_best(joined(found), k as nat, top);
    lemma_joined_is_flat(found);
    law_the_best_are_the_greatest(joined(found), k as nat, top);
    assert forall|i: int| 0 <= i < state.segments().len() implies answers_among(
        ask,
        state.segments()[i],
        k,
        routed(allowed, state.owner, state.tag(i)),
        #[trigger] found[i],
    ) by {
        let segment = state.segments()[i];
    }
    found
}

/// What it takes for hits to be a segment's answer in a filtered search: handed exactly the
/// ids that fell to the segment, and `k`, the segment gave exactly them. Where none fell to
/// it, there are none.
pub proof fn law_what_an_answer_is<F>(
    ask: F,
    segment: IdMapIndex,
    k: usize,
    among: Seq<u64>,
    answer: Seq<Hit>,
) where F: Fn(&IdMapIndex, usize, &[u64]) -> Vec<Hit>
    ensures
        among.len() > 0 ==> (answers_among(ask, segment, k, among, answer) <==> exists|
            handed: &[u64],
            given: Vec<Hit>,
        | #[trigger]
            call_ensures(ask, (&segment, k, handed), given) && handed@ == among && given@
                == answer),
        among.len() == 0 ==> (answers_among(ask, segment, k, among, answer) <==> answer.len()
            == 0),
{
    assert(answer.len() == 0 ==> answer =~= Seq::empty());
}

/// A search for nothing finds nothing.
pub proof fn law_nothing_is_found_for_a_zero_k<F, G>(
    ask: F,
    ask_among: G,
    state: IndexState,
    allowed: Seq<u64>,
    top: Seq<Hit>,
) where
    F: Fn(&IdMapIndex, usize) -> Vec<Hit>,
    G: Fn(&IdMapIndex, usize, &[u64]) -> Vec<Hit>,

    ensures
        finds(ask, state.segments(), 0, top) <==> top.len() == 0,
        finds_among(ask_among, state, 0, allowed, top) <==> top.len() == 0,
{
    assert(top.len() == 0 ==> top =~= Seq::empty());
}

/// The segments that a search asks are the sealed ones and the hot one, each tagged as
/// the owner that stands for it.
pub proof fn law_no_segment_is_passed_over(state: IndexState)
    requires
        state.sealed.len() <= usize::MAX,
    ensures
        state.segments().len() == state.sealed.len() + 1,
        state.segments()[state.sealed.len() as int] == state.hot,
        state.tag(state.sealed.len() as int) == Owner::Hot,
        forall|i: int|
            0 <= i < state.sealed.len() ==> #[trigger] state.segments()[i] == state.sealed[i]
                && state.tag(i) == Owner::Sealed(i as usize),
{
}

/// A segment is handed the allowed ids that it owns in the order in which they are first
/// listed.
pub proof fn law_the_listed_order_is_kept(
    allowed: Seq<u64>,
    owner: Map<u64, Owner>,
    tag: Owner,
    i: int,
    j: int,
    p: int,
    q: int,
)
    requires
        0 <= i < j < routed(allowed, owner, tag).len(),
        0 <= p < allowed.len(),
        0 <= q < allowed.len(),
        allowed[p] == routed(allowed, owner, tag)[i],
        allowed[q] == routed(allowed, owner, tag)[j],
        forall|n: int| 0 <= n < p ==> allowed[n] != allowed[p],
        forall|n: int| 0 <= n < q ==> allowed[n] != allowed[q],
    ensures
        p < q,
    decreases allowed.len(),
{
    let front = allowed.drop_last();
    let before = routed(front, owner, tag);
    lemma_routed(front, owner, tag);
    assert(before.contains(before[i]));
    let n = front.index_of(before[i]);
    assert(allowed[n] == allowed[p]);
    if j < before.len() {
        assert(before.contains(before[j]));
        let m = front.index_of(before[j]);
        assert(allowed[m] == allowed[q]);
        law_the_listed_order_is_kept(front, owner, tag, i, j, p, q);
    } else {
        assert(allowed[q] == allowed.last());
        if q < front.len() {
            assert(front[q] == allowed.last());
        }
    }
}

/// The score of each live id, where `score` gives that of an encoded vector.
pub open spec fn scores_of(
    state: IndexState,
    score: spec_fn(Seq<u8>) -> u32,
) -> spec_fn(u64) -> u32 {
    |id: u64| score(state.vectors()[id])
}

/// Every live vector's score is a number.
pub open spec fn all_scored(state: IndexState, score: spec_fn(Seq<u8>) -> u32) -> bool {
    forall|id: u64| state.ids().contains(id) ==> !is_nan(#[trigger] scores_of(state, score)(id))
}

/// Each segment that is asked gives its own `k` best, by the scores of the vectors that
/// it holds.
pub open spec fn ranks_by<F>(
    ask: F,
    state: IndexState,
    score: spec_fn(Seq<u8>) -> u32,
    k: usize,
) -> bool where F: Fn(&IdMapIndex, usize) -> Vec<Hit> {
    forall|i: int, given: Vec<Hit>|
        0 <= i < state.segments().len() && #[trigger] call_ensures(
            ask,
            (&state.segments()[i], k),
            given,
        ) ==> is_top_k(
            given@,
            index_ids(state.segments()[i]),
            |id: u64| score(index_vectors(state.segments()[i])[id]),
            k as nat,
        )
}

/// Each segment that is asked gives its own `k` best among the ids handed to it, by the
/// scores of the vectors that it holds.
pub open spec fn ranks_among_by<F>(
    ask: F,
    state: IndexState,
    score: spec_fn(Seq<u8>) -> u32,
    k: usize,
) -> bool where F: Fn(&IdMapIndex, usize, &[u64]) -> Vec<Hit> {
    forall|i: int, handed: &[u64], given: Vec<Hit>|
        0 <= i < state.segments().len() && #[trigger] call_ensures(
            ask,
            (&state.segments()[i], k, handed),
            given,
        ) && handed@.to_set().subset_of(index_ids(state.segments()[i])) ==> is_top_k(
            given@,
            handed@.to_set(),
            |id: u64| score(index_vectors(state.segments()[i])[id]),
            k as nat,
        )
}

proof fn lemma_same_scores(
    answer: Seq<Hit>,
    ids: Set<u64>,
    score: spec_fn(u64) -> u32,
    other: spec_fn(u64) -> u32,
    k: nat,
)
    requires
        is_top_k(answer, ids, score, k),
        forall|id: u64| ids.contains(id) ==> #[trigger] score(id) == other(id),
    ensures
        is_top_k(answer, ids, other, k),
{
    assert forall|i: int| 0 <= i < answer.len() implies ids.contains((#[trigger] answer[i]).0)
        && answer[i].1 == other(answer[i].0) by {
        assert(score(answer[i].0) == other(answer[i].0));
    }
    assert forall|id: u64, i: int|
        ids.contains(id) && !ids_of(answer).contains(id) && 0 <= i < answer.len() implies rank_of(
        #[trigger] other(id),
    ) <= rank_of((#[trigger] answer[i]).1) by {
        assert(score(id) == other(id));
    }
}

proof fn lemma_segment_scores(state: IndexState, score: spec_fn(Seq<u8>) -> u32, i: int, id: u64)
    requires
        state.consistent(),
        0 <= i < state.segments().len(),
        index_ids(state.segments()[i]).contains(id),
    ensures
        score(index_vectors(state.segments()[i])[id]) == scores_of(state, score)(id),
{
    law_segments_part_the_ids(state);
    assert(segment_ids(state)[i] == state.owned(state.tag(i)));
    assert(state.owned(state.tag(i)).contains(id));
}

/// A search gives the `k` best of all live ids by the scores of their vectors.
pub proof fn law_search_gives_the_best<F>(
    state: IndexState,
    ask: F,
    score: spec_fn(Seq<u8>) -> u32,
    k: usize,
    top: Seq<Hit>,
) where F: Fn(&IdMapIndex, usize) -> Vec<Hit>
    requires
        state.consistent(),
        all_scored(state, score),
        ranks_by(ask, state, score, k),
        finds(ask, state.segments(), k, top),
    ensures
        is_top_k(top, state.ids(), scores_of(state, score), k as nat),
{
    let by_id = scores_of(state, score);
    assert forall|i: int, given: Vec<Hit>|
        0 <= i < state.segments().len() && #[trigger] call_ensures(
            ask,
            (&state.segments()[i], k),
            given,
        ) implies is_top_k(given@, index_ids(state.segments()[i]), by_id, k as nat) by {
        let own = |id: u64| score(index_vectors(state.segments()[i])[id]);
        assert forall|id: u64| index_ids(state.segments()[i]).contains(id) implies #[trigger] own(
            id,
        ) == by_id(id) by {
            lemma_segment_scores(state, score, i, id);
        }
        lemma_same_scores(given@, index_ids(state.segments()[i]), own, by_id, k as nat);
    }
    law_search_is_exact(state, ask, by_id, k, top);
}

/// A filtered search gives the `k` best of the ids that are allowed and live, by the
/// scores of their vectors.
pub proof fn law_filtered_search_gives_the_best<F>(
    state: IndexState,
    ask: F,
    score: spec_fn(Seq<u8>) -> u32,
    k: usize,
    allowed: Seq<u64>,
    top: Seq<Hit>,
) where F: Fn(&IdMapIndex, usize, &[u64]) -> Vec<Hit>
    requires
        state.consistent(),
        all_scored(state, score),
        ranks_among_by(ask, state, score, k),
        finds_among(ask, state, k, allowed, top),
    ensures
        is_top_k(
            top,
            allowed.to_set().intersect(state.ids()),
            scores_of(state, score),
            k as nat,
        ),
{
    let by_id = scores_of(state, score);
    assert forall|i: int, handed: &[u64], given: Vec<Hit>|
        0 <= i < state.segments().len() && #[trigger] call_ensures(
            ask,
            (&state.segments()[i], k, handed),
            given,
        ) && handed@.to_set().subset_of(index_ids(state.segments()[i])) implies is_top_k(
        given@,
        handed@.to_set(),
        by_id,
        k as nat,
    ) by {
        let own = |id: u64| score(index_vectors(state.segments()[i])[id]);
        assert forall|id: u64| handed@.to_set().contains(id) implies #[trigger] own(id) == by_id(
            id,
        ) by {
            lemma_segment_scores(state, score, i, id);
        }
        lemma_same_scores(given@, handed@.to_set(), own, by_id, k as nat);
    }
    law_filtered_search_is_exact(state, ask, by_id, k, allowed, top);
}

/// How the vectors are cut into segments does not show: two indexes that hold the same
/// vectors under the same ids give like answers, and the same answer where no two
/// scores are equal.
pub proof fn law_cutting_into_segments_does_not_show<F>(
    state: IndexState,
    other: IndexState,
    ask: F,
    score: spec_fn(Seq<u8>) -> u32,
    k: usize,
    top: Seq<Hit>,
    other_top: Seq<Hit>,
) where F: Fn(&IdMapIndex, usize) -> Vec<Hit>
    requires
        state.consistent(),
        other.consistent(),
        state.vectors() == other.vectors(),
        all_scored(state, score),
        ranks_by(ask, state, score, k),
        ranks_by(ask, other, score, k),
        finds(ask, state.segments(), k, top),
        finds(ask, other.segments(), k, other_top),
    ensures
        alike(top, other_top),
        no_ties(state.ids(), scores_of(state, score)) ==> top == other_top,
{
    assert(state.ids() =~= state.vectors().dom());
    assert(other.ids() =~= other.vectors().dom());
    assert(scores_of(state, score) =~= scores_of(other, score));
    law_search_gives_the_best(state, ask, score, k, top);
    law_search_gives_the_best(other, ask, score, k, other_top);
    law_answers_agree(top, other_top, state.ids(), scores_of(state, score), k as nat);
}

/// The answer is like that of one vector index that holds everything, and the same
/// where no two scores are equal.
pub proof fn law_a_search_agrees_with_a_single_index<F>(
    state: IndexState,
    whole: IdMapIndex,
    ask: F,
    score: spec_fn(Seq<u8>) -> u32,
    k: usize,
    top: Seq<Hit>,
    single: Seq<Hit>,
) where F: Fn(&IdMapIndex, usize) -> Vec<Hit>
    requires
        state.consistent(),
        index_vectors(whole) == state.vectors(),
        all_scored(state, score),
        ranks_by(ask, state, score, k),
        finds(ask, state.segments(), k, top),
        is_top_k(
            single,
            index_ids(whole),
            |id: u64| score(index_vectors(whole)[id]),
            k as nat,
        ),
    ensures
        alike(top, single),
        no_ties(state.ids(), scores_of(state, score)) ==> top == single,
{
    assert(state.ids() =~= state.vectors().dom());
    assert(scores_of(state, score) =~= (|id: u64| score(index_vectors(whole)[id])));
    law_search_gives_the_best(state, ask, score, k, top);
    law_answers_agree(top, single, state.ids(), scores_of(state, score), k as nat);
}

/// Sealing leaves the answers of a search alike.
pub proof fn law_sealing_leaves_answers_alike<F>(
    before: IndexState,
    after: IndexState,
    ask: F,
    score: spec_fn(Seq<u8>) -> u32,
    k: usize,
    top: Seq<Hit>,
    after_top: Seq<Hit>,
) where F: Fn(&IdMapIndex, usize) -> Vec<Hit>
    requires
        before.consistent(),
        before.sealed_as(after),
        after.well_formed(),
        all_scored(before, score),
        ranks_by(ask, before, score, k),
        ranks_by(ask, after, score, k),
        finds(ask, before.segments(), k, top),
        finds(ask, after.segments(), k, after_top),
    ensures
        after.ids() == before.ids(),
        after.generation == before.generation,
        alike(top, after_top),
        no_ties(before.ids(), scores_of(before, score)) ==> top == after_top,
{
    law_seal_preserves(before, after);
    law_cutting_into_segments_does_not_show(before, after, ask, score, k, top, after_top);
}

/// A removal takes exactly one hit out of the full answer: the removed id never comes
/// back, and no other id is lost or scored anew.
pub proof fn law_removal_takes_one_hit_out<F>(
    before: IndexState,
    id: u64,
    removed: bool,
    after: IndexState,
    ask: F,
    score: spec_fn(Seq<u8>) -> u32,
    n: usize,
    full: Seq<Hit>,
    m: usize,
    rest: Seq<Hit>,
) where F: Fn(&IdMapIndex, usize) -> Vec<Hit>
    requires
        before.consistent(),
        before.removed_as(id, removed, after),
        after.well_formed(),
        all_scored(before, score),
        before.ids().len() <= n,
        after.ids().len() <= m,
        ranks_by(ask, before, score, n),
        ranks_by(ask, after, score, m),
        finds(ask, before.segments(), n, full),
        finds(ask, after.segments(), m, rest),
    ensures
        ids_of(full).no_duplicates(),
        ids_of(rest).no_duplicates(),
        forall|h: Hit| #[trigger] rest.contains(h) <==> full.contains(h) && h.0 != id,
        alike(kept(full, after.ids()), rest),
{
    law_remove_preserves(before, id, removed, after);
    let (then, now) = (scores_of(before, score), scores_of(after, score));
    assert forall|x: u64| after.ids().contains(x) implies #[trigger] now(x) == then(x) && !is_nan(
        now(x),
    ) by {
        assert(after.vectors()[x] == before.vectors()[x]);
        assert(before.ids().contains(x));
        assert(!is_nan(then(x)));
    }
    law_search_gives_the_best(before, ask, score, n, full);
    law_search_gives_the_best(after, ask, score, m, rest);
    assert forall|h: Hit| #[trigger] rest.contains(h) <==> full.contains(h) && h.0 != id by {
        law_a_full_answer_names_every_id(full, before.ids(), then, n as nat, h);
        law_a_full_answer_names_every_id(rest, after.ids(), now, m as nat, h);
        if after.ids().contains(h.0) {
            assert(now(h.0) == then(h.0));
        }
    }
    lemma_same_scores(rest, after.ids(), now, then, m as nat);
    law_filtering_a_full_answer(full, before.ids(), then, n as nat, after.ids());
    assert(after.ids().intersect(before.ids()) =~= after.ids());
    lemma_len_subset(after.ids(), before.ids());
    lemma_long_enough(rest, after.ids(), then, m as nat, n as nat);
    law_answers_agree(kept(full, after.ids()), rest, after.ids(), then, n as nat);
}

/// An answer that is long enough for all ids is as good for any longer `n`.
proof fn lemma_long_enough(
    answer: Seq<Hit>,
    ids: Set<u64>,
    score: spec_fn(u64) -> u32,
    m: nat,
    n: nat,
)
    requires
        is_top_k(answer, ids, score, m),
        ids.len() <= m,
        ids.len() <= n,
    ensures
        is_top_k(answer, ids, score, n),
{
}

/// The answer for `k` is the first `k` of the full answer, up to equal scores, and
/// every hit of it is in the full answer.
pub proof fn law_an_answer_heads_the_full_answer<F>(
    state: IndexState,
    ask: F,
    score: spec_fn(Seq<u8>) -> u32,
    k: usize,
    top: Seq<Hit>,
    n: usize,
    full: Seq<Hit>,
) where F: Fn(&IdMapIndex, usize) -> Vec<Hit>
    requires
        state.consistent(),
        all_scored(state, score),
        state.ids().len() <= n,
        ranks_by(ask, state, score, k),
        ranks_by(ask, state, score, n),
        finds(ask, state.segments(), k, top),
        finds(ask, state.segments(), n, full),
    ensures
        alike(
            top,
            full.take(
                if k < full.len() {
                    k as int
                } else {
                    full.len() as int
                },
            ),
        ),
        forall|h: Hit| #[trigger] top.contains(h) ==> full.contains(h),
        no_ties(state.ids(), scores_of(state, score)) ==> top == full.take(top.len() as int),
{
    let by_id = scores_of(state, score);
    law_search_gives_the_best(state, ask, score, k, top);
    law_search_gives_the_best(state, ask, score, n, full);
    law_the_head_is_the_best(full, state.ids(), by_id, n as nat, k as nat);
    let head = full.take(
        if k < full.len() {
            k as int
        } else {
            full.len() as int
        },
    );
    law_answers_agree(top, head, state.ids(), by_id, k as nat);
    assert forall|h: Hit| #[trigger] top.contains(h) implies full.contains(h) by {
        let i = top.index_of(h);
        assert(state.ids().contains(top[i].0) && top[i].1 == by_id(top[i].0));
        law_a_full_answer_names_every_id(full, state.ids(), by_id, n as nat, h);
    }
}

/// The filter comes before the cut: a filtered answer for `k` is the first `k` of the
/// full answer without what is not allowed, up to equal scores.
pub proof fn law_the_filter_comes_before_the_cut<F, G>(
    state: IndexState,
    ask: F,
    ask_among: G,
    score: spec_fn(Seq<u8>) -> u32,
    k: usize,
    allowed: Seq<u64>,
    top: Seq<Hit>,
    n: usize,
    full: Seq<Hit>,
) where F: Fn(&IdMapIndex, usize) -> Vec<Hit>, G: Fn(&IdMapIndex, usize, &[u64]) -> Vec<Hit>
    requires
        state.consistent(),
        all_scored(state, score),
        state.ids().len() <= n,
        ranks_by(ask, state, score, n),
        ranks_among_by(ask_among, state, score, k),
        finds(ask, state.segments(), n, full),
        finds_among(ask_among, state, k, allowed, top),
    ensures
        alike(
            top,
            kept(full, allowed.to_set()).take(
                if k < kept(full, allowed.to_set()).len() {
                    k as int
                } else {
                    kept(full, allowed.to_set()).len() as int
                },
            ),
        ),
        no_ties(state.ids(), scores_of(state, score)) ==> top == kept(
            full,
            allowed.to_set(),
        ).take(top.len() as int),
{
    let by_id = scores_of(state, score);
    let wanted = allowed.to_set().intersect(state.ids());
    let filtered = kept(full, allowed.to_set());
    law_search_gives_the_best(state, ask, score, n, full);
    law_filtered_search_gives_the_best(state, ask_among, score, k, allowed, top);
    law_filtering_a_full_answer(full, state.ids(), by_id, n as nat, allowed.to_set());
    lemma_len_subset(wanted, state.ids());
    law_the_head_is_the_best(filtered, wanted, by_id, n as nat, k as nat);
    let head = filtered.take(
        if k < filtered.len() {
            k as int
        } else {
            filtered.len() as int
        },
    );
    law_answers_agree(top, head, wanted, by_id, k as nat);
    if no_ties(state.ids(), by_id) {
        assert(no_ties(wanted, by_id));
    }
}

/// Only the live ids of an allowlist count: two lists with the same live ids give like
/// answers, whatever their order, their repetitions and their unknown ids.
pub proof fn law_only_allowed_live_ids_count<F>(
    state: IndexState,
    ask: F,
    score: spec_fn(Seq<u8>) -> u32,
    k: usize,
    allowed: Seq<u64>,
    top: Seq<Hit>,
    other: Seq<u64>,
    other_top: Seq<Hit>,
) where F: Fn(&IdMapIndex, usize, &[u64]) -> Vec<Hit>
    requires
        state.consistent(),
        all_scored(state, score),
        ranks_among_by(ask, state, score, k),
        allowed.to_set().intersect(state.ids()) == other.to_set().intersect(state.ids()),
        finds_among(ask, state, k, allowed, top),
        finds_among(ask, state, k, other, other_top),
    ensures
        alike(top, other_top),
        no_ties(state.ids(), scores_of(state, score)) ==> top == other_top,
{
    let by_id = scores_of(state, score);
    let wanted = allowed.to_set().intersect(state.ids());
    law_filtered_search_gives_the_best(state, ask, score, k, allowed, top);
    law_filtered_search_gives_the_best(state, ask, score, k, other, other_top);
    law_answers_agree(top, other_top, wanted, by_id, k as nat);
    if no_ties(state.ids(), by_id) {
        assert(no_ties(wanted, by_id));
    }
}

} // verus!
