//! Why a fan-out search is exact: a global top-`k` hit is, in particular, among
//! the top `k` of its own segment, so ranking the segments' answers together
//! loses nothing.
use vstd::prelude::*;
use vstd::seq_lib::*;
use vstd::set_lib::*;

use crate::score::{
    Hit, all_numbers, descending, is_best, is_nan, is_ranking,
    law_ranking_is_the_order_of_the_numbers, rank_of, value_of,
};

verus! {

/// The answers of all segments, one after the other.
pub open spec fn joined(answers: Seq<Seq<Hit>>) -> Seq<Hit>
    decreases answers.len(),
{
    if answers.len() == 0 {
        Seq::empty()
    } else {
        joined(answers.drop_last()) + answers.last()
    }
}

/// The ids that a list of hits names, in its order.
pub open spec fn ids_of(hits: Seq<Hit>) -> Seq<u64> {
    hits.map_values(|h: Hit| h.0)
}

/// `answer` lists the `k` best of the vectors `ids` (all of them where there are
/// fewer), best first, each once and with its score.
pub open spec fn is_top_k(
    answer: Seq<Hit>,
    ids: Set<u64>,
    score: spec_fn(u64) -> u32,
    k: nat,
) -> bool {
    &&& answer.len() == if k < ids.len() {
        k
    } else {
        ids.len()
    }
    &&& ids_of(answer).no_duplicates()
    &&& forall|i: int|
        0 <= i < answer.len() ==> ids.contains((#[trigger] answer[i]).0) && answer[i].1 == score(
            answer[i].0,
        )
    &&& descending(answer)
    &&& forall|id: u64, i: int|
        ids.contains(id) && !ids_of(answer).contains(id) && 0 <= i < answer.len() ==> rank_of(
            #[trigger] score(id),
        ) <= rank_of((#[trigger] answer[i]).1)
}

/// No id is in two of the parts.
pub open spec fn disjoint(parts: Seq<Set<u64>>) -> bool {
    forall|p: int, q: int, id: u64|
        0 <= p < q < parts.len() && #[trigger] parts[p].contains(id) ==> !(
        #[trigger] parts[q].contains(id))
}

/// The ids of all parts together.
pub open spec fn union_of(parts: Seq<Set<u64>>) -> Set<u64> {
    Set::new(|id: u64| exists|p: int| 0 <= p < parts.len() && #[trigger] parts[p].contains(id))
}

proof fn lemma_joined_contains(answers: Seq<Seq<Hit>>, h: Hit)
    ensures
        joined(answers).contains(h) <==> exists|p: int|
            0 <= p < answers.len() && (#[trigger] answers[p]).contains(h),
    decreases answers.len(),
{
    if answers.len() > 0 {
        let front = answers.drop_last();
        lemma_joined_contains(front, h);
        let whole = joined(answers);
        if whole.contains(h) {
            let i = whole.index_of(h);
            if i < joined(front).len() {
                assert(joined(front)[i] == h);
                let p = choose|p: int| 0 <= p < front.len() && (#[trigger] front[p]).contains(h);
                assert(answers[p].contains(h));
            } else {
                assert(answers.last()[i - joined(front).len()] == h);
                assert(answers[answers.len() - 1].contains(h));
            }
        }
        if exists|p: int| 0 <= p < answers.len() && (#[trigger] answers[p]).contains(h) {
            let p = choose|p: int| 0 <= p < answers.len() && (#[trigger] answers[p]).contains(h);
            if p < front.len() {
                assert(front[p].contains(h));
                let i = joined(front).index_of(h);
                assert(whole[i] == h);
            } else {
                let i = answers.last().index_of(h);
                assert(whole[joined(front).len() + i] == h);
            }
        }
    }
}

proof fn lemma_joined_len(answers: Seq<Seq<Hit>>, p: int)
    requires
        0 <= p < answers.len(),
    ensures
        answers[p].len() <= joined(answers).len(),
    decreases answers.len(),
{
    if p < answers.len() - 1 {
        lemma_joined_len(answers.drop_last(), p);
    }
}

proof fn lemma_joined_distinct(answers: Seq<Seq<Hit>>, parts: Seq<Set<u64>>)
    requires
        answers.len() == parts.len(),
        disjoint(parts),
        forall|p: int| 0 <= p < answers.len() ==> ids_of(#[trigger] answers[p]).no_duplicates(),
        forall|p: int, i: int|
            0 <= p < answers.len() && 0 <= i < answers[p].len() ==> parts[p].contains(
                (#[trigger] answers[p][i]).0,
            ),
    ensures
        ids_of(joined(answers)).no_duplicates(),
    decreases answers.len(),
{
    if answers.len() > 0 {
        let n = answers.len() - 1;
        let front = answers.drop_last();
        assert forall|p: int, q: int, id: u64|
            0 <= p < q < parts.drop_last().len() && #[trigger] parts.drop_last()[p].contains(
                id,
            ) implies !(#[trigger] parts.drop_last()[q].contains(id)) by {
            assert(parts[p].contains(id));
            assert(!parts[q].contains(id));
        }
        assert forall|p: int, i: int|
            0 <= p < front.len() && 0 <= i < front[p].len() implies parts.drop_last()[p].contains(
            (#[trigger] front[p][i]).0) by {
            assert(parts[p].contains(answers[p][i].0));
        }
        lemma_joined_distinct(front, parts.drop_last());
        let (a, b) = (joined(front), answers[n]);
        assert(ids_of(joined(answers)) =~= ids_of(a) + ids_of(b));
        assert forall|i: int, j: int| 0 <= i < a.len() && 0 <= j < b.len() implies ids_of(a)[i]
            != ids_of(b)[j] by {
            assert(a.contains(a[i]));
            lemma_joined_contains(front, a[i]);
            let p = choose|p: int| 0 <= p < front.len() && (#[trigger] front[p]).contains(a[i]);
            let m = front[p].index_of(a[i]);
            assert(parts[p].contains(answers[p][m].0));
            assert(parts[n].contains(answers[n][j].0));
        }
        lemma_no_dup_in_concat(ids_of(a), ids_of(b));
    }
}

proof fn lemma_ids_contains(hits: Seq<Hit>, id: u64)
    requires
        ids_of(hits).contains(id),
    ensures
        exists|i: int| 0 <= i < hits.len() && (#[trigger] hits[i]).0 == id,
{
    let i = ids_of(hits).index_of(id);
    assert(hits[i].0 == id);
}

/// A distinct answer drawn from `ids` names no more ids than there are, and where
/// it names as many it names every one.
proof fn lemma_answer_size(answer: Seq<Hit>, ids: Set<u64>)
    requires
        ids.finite(),
        ids_of(answer).no_duplicates(),
        forall|i: int| 0 <= i < answer.len() ==> ids.contains((#[trigger] answer[i]).0),
    ensures
        answer.len() <= ids.len(),
        answer.len() == ids.len() ==> forall|id: u64|
            ids.contains(id) ==> #[trigger] ids_of(answer).contains(id),
{
    let named = ids_of(answer).to_set();
    ids_of(answer).unique_seq_to_set();
    assert(named.subset_of(ids)) by {
        assert forall|id: u64| named.contains(id) implies ids.contains(id) by {
            lemma_ids_contains(answer, id);
        }
    }
    lemma_len_subset(named, ids);
    if answer.len() == ids.len() {
        lemma_subset_equality(named, ids);
        assert forall|id: u64| ids.contains(id) implies #[trigger] ids_of(answer).contains(id) by {
            assert(named.contains(id));
        }
    }
}

/// A ranking of distinct hits is a distinct list of the same hits.
proof fn lemma_ranking_of_distinct(hits: Seq<Hit>, ordered: Seq<Hit>)
    requires
        ordered.to_multiset() == hits.to_multiset(),
        ids_of(hits).no_duplicates(),
    ensures
        ids_of(ordered).no_duplicates(),
        ordered.len() == hits.len(),
        forall|h: Hit| #[trigger] ordered.contains(h) <==> hits.contains(h),
{
    broadcast use group_to_multiset_ensures;

    ordered.to_multiset_ensures();
    hits.to_multiset_ensures();
    assert(hits.no_duplicates()) by {
        assert forall|i: int, j: int| 0 <= i < j < hits.len() implies hits[i] != hits[j] by {
            assert(ids_of(hits)[i] != ids_of(hits)[j]);
        }
    }
    hits.lemma_multiset_has_no_duplicates();
    ordered.lemma_multiset_has_no_duplicates_conv();
    assert forall|h: Hit| #[trigger] ordered.contains(h) <==> hits.contains(h) by {
        assert(ordered.contains(h) <==> ordered.to_multiset().count(h) > 0);
        assert(hits.contains(h) <==> hits.to_multiset().count(h) > 0);
    }
    assert forall|i: int, j: int|
        0 <= i < ordered.len() && 0 <= j < ordered.len() && i != j implies ids_of(ordered)[i]
        != ids_of(ordered)[j] by {
        assert(ordered.contains(ordered[i]) && ordered.contains(ordered[j]));
        let (m, n) = (hits.index_of(ordered[i]), hits.index_of(ordered[j]));
        assert(m != n);
        assert(ids_of(hits)[m] != ids_of(hits)[n]);
    }
}

/// A hit that a missing id cannot beat bounds the whole result: where `part`, an
/// answer of `k` distinct hits that all rank at least as high as `floor`, is
/// ranked among `ordered`, the first `k` of `ordered` rank at least as high too.
proof fn lemma_full_answer_bounds(
    ordered: Seq<Hit>,
    part: Seq<Hit>,
    k: int,
    floor: int,
    i: int,
)
    requires
        0 <= k <= ordered.len(),
        part.len() == k,
        0 <= i < k,
        descending(ordered),
        ids_of(ordered).no_duplicates(),
        ids_of(part).no_duplicates(),
        forall|j: int| 0 <= j < part.len() ==> ordered.contains(#[trigger] part[j]),
        forall|j: int| 0 <= j < part.len() ==> floor <= rank_of((#[trigger] part[j]).1),
    ensures
        floor <= rank_of(ordered[i].1),
{
    let top = ordered.take(k);
    if forall|j: int| 0 <= j < part.len() ==> top.contains(#[trigger] part[j]) {
        // The result is exactly that answer.
        let named = ids_of(top).to_set();
        assert(ids_of(top).no_duplicates()) by {
            assert forall|a: int, b: int| 0 <= a < b < top.len() implies ids_of(top)[a] != ids_of(
                top,
            )[b] by {
                assert(ids_of(ordered)[a] != ids_of(ordered)[b]);
            }
        }
        ids_of(top).unique_seq_to_set();
        assert forall|j: int| 0 <= j < part.len() implies named.contains(
            (#[trigger] part[j]).0,
        ) by {
            let a = top.index_of(part[j]);
            assert(ids_of(top)[a] == part[j].0);
        }
        lemma_answer_size(part, named);
        assert(ids_of(top)[i] == top[i].0);
        assert(named.contains(top[i].0));
        assert(ids_of(part).contains(top[i].0));
        lemma_ids_contains(part, top[i].0);
        let j = choose|j: int| 0 <= j < part.len() && (#[trigger] part[j]).0 == top[i].0;
        let a = top.index_of(part[j]);
        assert(ids_of(ordered)[a] == ids_of(ordered)[i]);
        assert(a == i);
    } else {
        // One of its hits was cut off, and ranks no higher than what was kept.
        let j = choose|j: int| 0 <= j < part.len() && !top.contains(#[trigger] part[j]);
        let a = ordered.index_of(part[j]);
        if a < k {
            assert(top[a] == part[j]);
        }
        assert(rank_of(ordered[i].1) >= rank_of(ordered[a].1));
    }
}

/// The merge is exact: where each part answers with the top `k` of its own ids,
/// the best `k` of those answers together are the top `k` of all ids.
pub proof fn law_merge_is_exact(
    parts: Seq<Set<u64>>,
    answers: Seq<Seq<Hit>>,
    score: spec_fn(u64) -> u32,
    k: nat,
    top: Seq<Hit>,
)
    requires
        answers.len() == parts.len(),
        disjoint(parts),
        union_of(parts).finite(),
        forall|id: u64| #[trigger] union_of(parts).contains(id) ==> !is_nan(score(id)),
        forall|p: int|
            0 <= p < parts.len() ==> is_top_k(#[trigger] answers[p], parts[p], score, k),
        is_best(joined(answers), k, top),
    ensures
        is_top_k(top, union_of(parts), score, k),
{
    let all = union_of(parts);
    let hits = joined(answers);
    let ordered = choose|ordered: Seq<Hit>|
        #[trigger] is_ranking(hits, ordered) && top == ordered.take(
            if k < ordered.len() {
                k as int
            } else {
                ordered.len() as int
            },
        );
    assert forall|p: int, i: int|
        0 <= p < answers.len() && 0 <= i < answers[p].len() implies parts[p].contains(
        (#[trigger] answers[p][i]).0) by {
        assert(is_top_k(answers[p], parts[p], score, k));
    }
    assert forall|p: int| 0 <= p < answers.len() implies ids_of(
        #[trigger] answers[p],
    ).no_duplicates() by {
        assert(is_top_k(answers[p], parts[p], score, k));
    }
    lemma_joined_distinct(answers, parts);
    lemma_ranking_of_distinct(hits, ordered);
    // What the hits are.
    assert forall|h: Hit| hits.contains(h) implies all.contains(h.0) && h.1 == score(h.0) by {
        lemma_joined_contains(answers, h);
        let p = choose|p: int| 0 <= p < answers.len() && (#[trigger] answers[p]).contains(h);
        let i = answers[p].index_of(h);
        assert(is_top_k(answers[p], parts[p], score, k));
        assert(answers[p][i] == h);
        assert(parts[p].contains(h.0));
    }
    assert(all_numbers(hits)) by {
        assert forall|i: int| 0 <= i < hits.len() implies !is_nan((#[trigger] hits[i]).1) by {
            assert(hits.contains(hits[i]));
            assert(all.contains(hits[i].0));
        }
    }
    assert forall|i: int| 0 <= i < top.len() implies all.contains((#[trigger] top[i]).0)
        && top[i].1 == score(top[i].0) by {
        assert(ordered.contains(ordered[i]));
        assert(hits.contains(top[i]));
    }
    assert(ids_of(top).no_duplicates()) by {
        assert forall|a: int, b: int| 0 <= a < b < top.len() implies ids_of(top)[a] != ids_of(
            top,
        )[b] by {
            assert(ids_of(ordered)[a] != ids_of(ordered)[b]);
        }
    }
    assert forall|i: int| 0 <= i < hits.len() implies all.contains((#[trigger] hits[i]).0) by {
        assert(hits.contains(hits[i]));
    }
    lemma_answer_size(hits, all);
    // An id that no segment answered with belongs to a segment whose answer is full.
    assert forall|id: u64| all.contains(id) && !ids_of(hits).contains(id) implies exists|p: int|
        0 <= p < parts.len() && #[trigger] parts[p].contains(id) && answers[p].len() == k
            && !ids_of(answers[p]).contains(id) by {
        let p = choose|p: int| 0 <= p < parts.len() && #[trigger] parts[p].contains(id);
        assert(is_top_k(answers[p], parts[p], score, k));
        if ids_of(answers[p]).contains(id) {
            lemma_ids_contains(answers[p], id);
            let i = choose|i: int| 0 <= i < answers[p].len() && (#[trigger] answers[p][i]).0 == id;
            lemma_joined_contains(answers, answers[p][i]);
            assert(answers[p].contains(answers[p][i]));
            let j = hits.index_of(answers[p][i]);
            assert(ids_of(hits)[j] == id);
        }
        assert(parts[p].subset_of(all));
        lemma_set_subset_finite(all, parts[p]);
        lemma_answer_size(answers[p], parts[p]);
    }
    // The length.
    if hits.len() < all.len() {
        let missing = choose|id: u64| all.contains(id) && !ids_of(hits).contains(id);
        if !(all.contains(missing) && !ids_of(hits).contains(missing)) {
            let named = ids_of(hits).to_set();
            ids_of(hits).unique_seq_to_set();
            assert(all.subset_of(named)) by {
                assert forall|id: u64| all.contains(id) implies named.contains(id) by {
                    assert(ids_of(hits).contains(id));
                }
            }
            lemma_len_subset(all, named);
            assert(false);
        }
        let p = choose|p: int|
            0 <= p < parts.len() && #[trigger] parts[p].contains(missing) && answers[p].len() == k
                && !ids_of(answers[p]).contains(missing);
        lemma_joined_len(answers, p);
    }
    // What was left out ranks no higher than what was kept.
    assert forall|id: u64, i: int|
        all.contains(id) && !ids_of(top).contains(id) && 0 <= i < top.len() implies rank_of(
        #[trigger] score(id),
    ) <= rank_of((#[trigger] top[i]).1) by {
        if ids_of(hits).contains(id) {
            lemma_ids_contains(hits, id);
            let m = choose|m: int| 0 <= m < hits.len() && (#[trigger] hits[m]).0 == id;
            assert(hits.contains(hits[m]));
            assert(ordered.contains(hits[m]));
            let a = ordered.index_of(hits[m]);
            if a < top.len() {
                assert(ids_of(top)[a] == id);
            }
            assert(rank_of(ordered[i].1) >= rank_of(ordered[a].1));
        } else {
            let p = choose|p: int|
                0 <= p < parts.len() && #[trigger] parts[p].contains(id) && answers[p].len() == k
                    && !ids_of(answers[p]).contains(id);
            lemma_joined_len(answers, p);
            assert(is_top_k(answers[p], parts[p], score, k));
            assert forall|j: int| 0 <= j < answers[p].len() implies ordered.contains(
                #[trigger] answers[p][j],
            ) by {
                lemma_joined_contains(answers, answers[p][j]);
                assert(answers[p].contains(answers[p][j]));
                assert(hits.contains(answers[p][j]));
            }
            lemma_full_answer_bounds(ordered, answers[p], k as int, rank_of(score(id)), i);
        }
    }
}

/// A merge of answers names only ids that some segment answered with.
pub proof fn law_merge_names_only_answered_ids(
    answers: Seq<Seq<Hit>>,
    k: nat,
    top: Seq<Hit>,
    i: int,
)
    requires
        is_best(joined(answers), k, top),
        0 <= i < top.len(),
    ensures
        exists|p: int| 0 <= p < answers.len() && (#[trigger] answers[p]).contains(top[i]),
{
    broadcast use group_to_multiset_ensures;

    let hits = joined(answers);
    let ordered = choose|ordered: Seq<Hit>|
        #[trigger] is_ranking(hits, ordered) && top == ordered.take(
            if k < ordered.len() {
                k as int
            } else {
                ordered.len() as int
            },
        );
    assert(ordered.contains(ordered[i]));
    assert(ordered.to_multiset().count(ordered[i]) > 0);
    assert(hits.contains(top[i]));
    lemma_joined_contains(answers, top[i]);
}

/// Two answers are alike up to the choice among equal scores: the same scores in the
/// same order, and the same hits but for those that tie with the worst one.
pub open spec fn alike(a: Seq<Hit>, b: Seq<Hit>) -> bool {
    &&& a.len() == b.len()
    &&& forall|i: int|
        0 <= i < a.len() ==> rank_of((#[trigger] a[i]).1) == rank_of((#[trigger] b[i]).1)
    &&& forall|i: int|
        0 <= i < a.len() && rank_of((#[trigger] a[i]).1) > rank_of(a.last().1) ==> b.contains(a[i])
    &&& forall|i: int|
        0 <= i < b.len() && rank_of((#[trigger] b[i]).1) > rank_of(b.last().1) ==> a.contains(b[i])
}

/// No two of the ids have equal scores.
pub open spec fn no_ties(ids: Set<u64>, score: spec_fn(u64) -> u32) -> bool {
    forall|x: u64, y: u64|
        ids.contains(x) && ids.contains(y) && x != y ==> rank_of(#[trigger] score(x)) != rank_of(
            #[trigger] score(y),
        )
}

proof fn lemma_no_better_at(
    a: Seq<Hit>,
    b: Seq<Hit>,
    ids: Set<u64>,
    score: spec_fn(u64) -> u32,
    k: nat,
    i: int,
)
    requires
        is_top_k(a, ids, score, k),
        is_top_k(b, ids, score, k),
        0 <= i < a.len(),
    ensures
        rank_of(a[i].1) <= rank_of(b[i].1),
{
    if rank_of(a[i].1) > rank_of(b[i].1) {
        // The first `i + 1` of `a` would all have to stand before position `i` of `b`.
        let (head, before) = (ids_of(a).take(i + 1), ids_of(b).take(i));
        assert forall|j: int| 0 <= j <= i implies before.contains(#[trigger] head[j]) by {
            let id = a[j].0;
            assert(rank_of(a[j].1) >= rank_of(a[i].1));
            assert(ids.contains(id) && a[j].1 == score(id));
            if !ids_of(b).contains(id) {
                assert(rank_of(score(id)) <= rank_of(b[i].1));
            }
            let m = ids_of(b).index_of(id);
            assert(b[m].0 == id && b[m].1 == score(id));
            if m >= i {
                assert(rank_of(b[i].1) >= rank_of(b[m].1));
            }
            assert(before[m] == id);
        }
        assert(head.no_duplicates()) by {
            assert forall|x: int, y: int| 0 <= x < y < head.len() implies head[x] != head[y] by {
                assert(ids_of(a)[x] != ids_of(a)[y]);
            }
        }
        assert(before.no_duplicates()) by {
            assert forall|x: int, y: int| 0 <= x < y < before.len() implies before[x]
                != before[y] by {
                assert(ids_of(b)[x] != ids_of(b)[y]);
            }
        }
        head.unique_seq_to_set();
        before.unique_seq_to_set();
        assert(head.to_set().subset_of(before.to_set())) by {
            assert forall|id: u64| head.to_set().contains(id) implies before.to_set().contains(
                id,
            ) by {
                let j = head.index_of(id);
                assert(before.contains(head[j]));
            }
        }
        lemma_len_subset(head.to_set(), before.to_set());
    }
}

proof fn lemma_better_than_last_is_in_both(
    a: Seq<Hit>,
    b: Seq<Hit>,
    ids: Set<u64>,
    score: spec_fn(u64) -> u32,
    k: nat,
    i: int,
)
    requires
        is_top_k(a, ids, score, k),
        is_top_k(b, ids, score, k),
        0 <= i < a.len(),
        rank_of(a[i].1) > rank_of(b.last().1),
    ensures
        b.contains(a[i]),
{
    let id = a[i].0;
    assert(ids.contains(id) && a[i].1 == score(id));
    if !ids_of(b).contains(id) {
        assert(rank_of(score(id)) <= rank_of(b[b.len() - 1].1));
    }
    let m = ids_of(b).index_of(id);
    assert(b[m].0 == id && b[m].1 == score(id));
    assert(b[m] == a[i]);
}

/// The best `k` of the same ids under the same scores are alike, whoever found them.
/// Where no two scores are equal, they are the same.
pub proof fn law_answers_agree(
    a: Seq<Hit>,
    b: Seq<Hit>,
    ids: Set<u64>,
    score: spec_fn(u64) -> u32,
    k: nat,
)
    requires
        is_top_k(a, ids, score, k),
        is_top_k(b, ids, score, k),
    ensures
        alike(a, b),
        no_ties(ids, score) ==> a == b,
{
    assert forall|i: int| 0 <= i < a.len() implies rank_of((#[trigger] a[i]).1) == rank_of(
        (#[trigger] b[i]).1,
    ) by {
        lemma_no_better_at(a, b, ids, score, k, i);
        lemma_no_better_at(b, a, ids, score, k, i);
    }
    assert forall|i: int|
        0 <= i < a.len() && rank_of((#[trigger] a[i]).1) > rank_of(a.last().1) implies b.contains(
        a[i],
    ) by {
        assert(rank_of(a[a.len() - 1].1) == rank_of(b[a.len() - 1].1));
        lemma_better_than_last_is_in_both(a, b, ids, score, k, i);
    }
    assert forall|i: int|
        0 <= i < b.len() && rank_of((#[trigger] b[i]).1) > rank_of(b.last().1) implies a.contains(
        b[i],
    ) by {
        assert(rank_of(a[a.len() - 1].1) == rank_of(b[a.len() - 1].1));
        lemma_better_than_last_is_in_both(b, a, ids, score, k, i);
    }
    if no_ties(ids, score) {
        assert forall|i: int| 0 <= i < a.len() implies a[i] == b[i] by {
            assert(rank_of(a[i].1) == rank_of(b[i].1));
            assert(ids.contains(a[i].0) && a[i].1 == score(a[i].0));
            assert(ids.contains(b[i].0) && b[i].1 == score(b[i].0));
        }
        assert(a =~= b);
    }
}

/// An answer that is long enough for all ids holds the hit of each of them and no
/// other.
pub proof fn law_a_full_answer_names_every_id(
    full: Seq<Hit>,
    ids: Set<u64>,
    score: spec_fn(u64) -> u32,
    n: nat,
    h: Hit,
)
    requires
        ids.finite(),
        is_top_k(full, ids, score, n),
        ids.len() <= n,
    ensures
        full.contains(h) <==> ids.contains(h.0) && h.1 == score(h.0),
{
    lemma_answer_size(full, ids);
    if full.contains(h) {
        let i = full.index_of(h);
        assert(ids.contains(full[i].0));
    }
    if ids.contains(h.0) && h.1 == score(h.0) {
        assert(ids_of(full).contains(h.0));
        lemma_ids_contains(full, h.0);
        let i = choose|i: int| 0 <= i < full.len() && (#[trigger] full[i]).0 == h.0;
        assert(full[i] == h);
    }
}

/// The first `k` of a longer answer are the best `k`.
pub proof fn law_the_head_is_the_best(
    full: Seq<Hit>,
    ids: Set<u64>,
    score: spec_fn(u64) -> u32,
    n: nat,
    k: nat,
)
    requires
        is_top_k(full, ids, score, n),
        k <= n || ids.len() <= n,
    ensures
        is_top_k(
            full.take(
                if k < full.len() {
                    k as int
                } else {
                    full.len() as int
                },
            ),
            ids,
            score,
            k,
        ),
{
    let m = if k < full.len() {
        k as int
    } else {
        full.len() as int
    };
    let head = full.take(m);
    assert(ids_of(head).no_duplicates()) by {
        assert forall|x: int, y: int| 0 <= x < y < head.len() implies ids_of(head)[x] != ids_of(
            head,
        )[y] by {
            assert(ids_of(full)[x] != ids_of(full)[y]);
        }
    }
    assert forall|i: int| 0 <= i < head.len() implies ids.contains((#[trigger] head[i]).0)
        && head[i].1 == score(head[i].0) by {
        assert(head[i] == full[i]);
    }
    assert forall|i: int, j: int| 0 <= i <= j < head.len() implies rank_of(
        (#[trigger] head[i]).1,
    ) >= rank_of((#[trigger] head[j]).1) by {
        assert(rank_of(full[i].1) >= rank_of(full[j].1));
    }
    assert forall|id: u64, i: int|
        ids.contains(id) && !ids_of(head).contains(id) && 0 <= i < head.len() implies rank_of(
        #[trigger] score(id),
    ) <= rank_of((#[trigger] head[i]).1) by {
        assert(head[i] == full[i]);
        if ids_of(full).contains(id) {
            let j = ids_of(full).index_of(id);
            assert(full[j].0 == id && full[j].1 == score(id));
            if j < m {
                assert(ids_of(head)[j] == id);
            }
            assert(rank_of(full[i].1) >= rank_of(full[j].1));
        }
    }
}

/// The hits of `hits` whose ids are in `keep`, in their order.
pub open spec fn kept(hits: Seq<Hit>, keep: Set<u64>) -> Seq<Hit> {
    hits.filter(|h: Hit| keep.contains(h.0))
}

proof fn lemma_kept(hits: Seq<Hit>, keep: Set<u64>)
    requires
        descending(hits),
        ids_of(hits).no_duplicates(),
    ensures
        descending(kept(hits, keep)),
        ids_of(kept(hits, keep)).no_duplicates(),
        forall|h: Hit| #[trigger]
            kept(hits, keep).contains(h) <==> hits.contains(h) && keep.contains(h.0),
    decreases hits.len(),
{
    reveal(Seq::filter);
    if hits.len() > 0 {
        let (front, last) = (hits.drop_last(), hits.last());
        let (before, after) = (kept(front, keep), kept(hits, keep));
        assert forall|i: int, j: int| 0 <= i <= j < front.len() implies rank_of(
            (#[trigger] front[i]).1,
        ) >= rank_of((#[trigger] front[j]).1) by {
            assert(rank_of(hits[i].1) >= rank_of(hits[j].1));
        }
        assert forall|x: int, y: int| 0 <= x < y < front.len() implies ids_of(front)[x] != ids_of(
            front,
        )[y] by {
            assert(ids_of(hits)[x] != ids_of(hits)[y]);
        }
        lemma_kept(front, keep);
        assert forall|i: int| 0 <= i < before.len() implies rank_of((#[trigger] before[i]).1)
            >= rank_of(last.1) && before[i].0 != last.0 by {
            assert(before.contains(before[i]));
            let m = front.index_of(before[i]);
            assert(hits[m] == before[i]);
            assert(rank_of(hits[m].1) >= rank_of(hits[hits.len() - 1].1));
            assert(ids_of(hits)[m] != ids_of(hits)[hits.len() - 1]);
        }
        assert forall|h: Hit| #[trigger]
            after.contains(h) <==> hits.contains(h) && keep.contains(h.0) by {
            assert(hits =~= front.push(last));
            if after.contains(h) {
                let i = after.index_of(h);
                if i < before.len() {
                    assert(before[i] == h);
                    assert(before.contains(h));
                    let m = front.index_of(h);
                    assert(hits[m] == h);
                } else {
                    assert(hits[hits.len() - 1] == h);
                }
            }
            if hits.contains(h) && keep.contains(h.0) {
                let m = hits.index_of(h);
                if m < front.len() {
                    assert(front[m] == h);
                    assert(before.contains(h));
                    let i = before.index_of(h);
                    assert(after[i] == h);
                } else {
                    assert(after[before.len() as int] == h);
                }
            }
        }
        assert forall|x: int, y: int| 0 <= x < y < after.len() implies ids_of(after)[x] != ids_of(
            after,
        )[y] by {
            if y < before.len() {
                assert(ids_of(before)[x] != ids_of(before)[y]);
            } else {
                assert(before[x].0 != last.0);
            }
        }
        assert forall|x: int, y: int| 0 <= x <= y < after.len() implies rank_of(
            (#[trigger] after[x]).1,
        ) >= rank_of((#[trigger] after[y]).1) by {
            if y < before.len() {
                assert(rank_of(before[x].1) >= rank_of(before[y].1));
            } else if x < before.len() {
                assert(rank_of(before[x].1) >= rank_of(last.1));
            }
        }
    }
}

/// Filtering an answer that names every id gives one that names every id that passes.
pub proof fn law_filtering_a_full_answer(
    full: Seq<Hit>,
    ids: Set<u64>,
    score: spec_fn(u64) -> u32,
    n: nat,
    keep: Set<u64>,
)
    requires
        ids.finite(),
        is_top_k(full, ids, score, n),
        ids.len() <= n,
    ensures
        is_top_k(kept(full, keep), keep.intersect(ids), score, n),
{
    let (out, wanted) = (kept(full, keep), keep.intersect(ids));
    lemma_kept(full, keep);
    assert(wanted =~= ids.intersect(keep));
    lemma_len_subset(wanted, ids);
    assert forall|h: Hit| #[trigger] out.contains(h) <==> wanted.contains(h.0) && h.1 == score(
        h.0,
    ) by {
        law_a_full_answer_names_every_id(full, ids, score, n, h);
    }
    assert forall|i: int| 0 <= i < out.len() implies wanted.contains((#[trigger] out[i]).0)
        && out[i].1 == score(out[i].0) by {
        assert(out.contains(out[i]));
    }
    assert(ids_of(out).to_set() =~= wanted) by {
        assert forall|id: u64| ids_of(out).to_set().contains(id) <==> wanted.contains(id) by {
            if ids_of(out).contains(id) {
                lemma_ids_contains(out, id);
            }
            if wanted.contains(id) {
                assert(out.contains((id, score(id))));
                let i = out.index_of((id, score(id)));
                assert(ids_of(out)[i] == id);
            }
        }
    }
    ids_of(out).unique_seq_to_set();
    assert forall|id: u64, i: int|
        wanted.contains(id) && !ids_of(out).contains(id) && 0 <= i < out.len() implies rank_of(
        #[trigger] score(id),
    ) <= rank_of((#[trigger] out[i]).1) by {
        assert(ids_of(out).to_set().contains(id));
    }
}

/// What the best `k` of a set of ids are: as many as there are, up to `k`; each once and
/// with its own score; the greater number before the lesser; and no id that was left out
/// scores more than one that was kept.
pub proof fn law_what_the_best_are(
    answer: Seq<Hit>,
    ids: Set<u64>,
    score: spec_fn(u64) -> u32,
    k: nat,
)
    requires
        is_top_k(answer, ids, score, k),
    ensures
        answer.len() == if k < ids.len() {
            k
        } else {
            ids.len()
        },
        forall|i: int, j: int|
            0 <= i < j < answer.len() ==> (#[trigger] answer[i]).0 != (#[trigger] answer[j]).0,
        forall|i: int|
            0 <= i < answer.len() ==> ids.contains((#[trigger] answer[i]).0) && answer[i].1
                == score(answer[i].0),
        forall|i: int, j: int|
            0 <= i <= j < answer.len() ==> value_of((#[trigger] answer[i]).1) >= value_of(
                (#[trigger] answer[j]).1,
            ),
        forall|id: u64, i: int|
            ids.contains(id) && 0 <= i < answer.len() && (forall|j: int|
                0 <= j < answer.len() ==> (#[trigger] answer[j]).0 != id) ==> value_of(
                #[trigger] score(id),
            ) <= value_of((#[trigger] answer[i]).1),
{
    assert forall|i: int, j: int| 0 <= i < j < answer.len() implies (#[trigger] answer[i]).0 != (
    #[trigger] answer[j]).0 by {
        assert(ids_of(answer)[i] != ids_of(answer)[j]);
    }
    assert forall|i: int, j: int| 0 <= i <= j < answer.len() implies value_of(
        (#[trigger] answer[i]).1,
    ) >= value_of((#[trigger] answer[j]).1) by {
        assert(rank_of(answer[i].1) >= rank_of(answer[j].1));
        law_ranking_is_the_order_of_the_numbers(answer[j].1, answer[i].1);
    }
    assert forall|id: u64, i: int|
        ids.contains(id) && 0 <= i < answer.len() && (forall|j: int|
            0 <= j < answer.len() ==> (#[trigger] answer[j]).0 != id) implies value_of(
        #[trigger] score(id),
    ) <= value_of((#[trigger] answer[i]).1) by {
        if ids_of(answer).contains(id) {
            lemma_ids_contains(answer, id);
        }
        law_ranking_is_the_order_of_the_numbers(score(id), answer[i].1);
    }
}

} // verus!
