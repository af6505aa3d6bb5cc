//! What holds of every segmented index, whatever was done to it.
use turbovec::IdMapIndex;
use vstd::arithmetic::div_mod::{
    lemma_div_multiples_vanish, lemma_fundamental_div_mod, lemma_mod_multiples_basic,
};
use vstd::prelude::*;
use vstd::set_lib::{lemma_len_subset, lemma_set_disjoint_lens};

use crate::idmap::{ConstructError, construct_error, index_ids, index_shape, index_vectors};
use crate::state::{AddError, IndexState, Owner, is_first_taken, is_taken};

verus! {

/// Sealing keeps the bookkeeping in agreement with the segments, and changes
/// neither the live ids nor their vectors.
pub proof fn law_seal_preserves(before: IndexState, after: IndexState)
    requires
        before.consistent(),
        before.sealed_as(after),
        after.well_formed(),
    ensures
        after.consistent(),
        after.ids() == before.ids(),
        after.vectors() == before.vectors(),
{
    if index_ids(before.hot) != Set::<u64>::empty() {
        let n = before.sealed.len() as usize;
        assert(after.ids() =~= before.ids());
        assert forall|id: u64| #[trigger] after.routes(id) by {
            assert(before.routes(id));
        }
        assert(after.owned(Owner::Hot) =~= Set::empty());
        assert forall|s: usize| s < after.sealed.len() implies index_ids(
            #[trigger] after.sealed[s as int],
        ) == after.owned(Owner::Sealed(s)) by {
            if s < n {
                assert(after.sealed[s as int] == before.sealed[s as int]);
                assert(after.owned(Owner::Sealed(s)) =~= before.owned(Owner::Sealed(s)));
            } else {
                assert forall|id: u64| before.owner.contains_key(id) implies before.owner[id]
                    != Owner::Sealed(n) by {
                    assert(before.routes(id));
                }
                assert(after.owned(Owner::Sealed(s)) =~= before.owned(Owner::Hot));
            }
        }
        assert(after.vectors() =~= before.vectors()) by {
            assert forall|id: u64| before.owner.contains_key(id) implies index_vectors(
                after.segment_of(after.owner[id]),
            )[id] == index_vectors(before.segment_of(before.owner[id]))[id] by {
                assert(before.routes(id));
            }
        }
        assert forall|id: u64, s: usize| #[trigger] after.tombstones.contains((id, s)) implies s
            < after.sealed.len() && !index_ids(after.sealed[s as int]).contains(id) by {
            assert(before.tombstones.contains((id, s)));
        }
    }
}

/// `after` has the shape of `before` and holds what that held, unchanged, and beside it
/// exactly the ids of the batch.
pub open spec fn takes_in(before: IdMapIndex, ids: Seq<u64>, after: IdMapIndex) -> bool {
    &&& index_shape(after) == index_shape(before)
    &&& index_ids(after) == index_ids(before).union(ids.to_set())
    &&& forall|id: u64|
        index_ids(before).contains(id) && !ids.contains(id) ==> #[trigger] index_vectors(after)[id]
            == index_vectors(before)[id]
}

/// Adding a batch of new ids keeps the bookkeeping in agreement with the segments.
/// The live ids grow by the batch and no other vector changes, provided that the
/// encoder adds the batch to the hot segment and leaves the rest of it alone.
pub proof fn law_add_preserves(
    before: IndexState,
    hot: IdMapIndex,
    ids: Seq<u64>,
    after: IndexState,
)
    requires
        before.consistent(),
        forall|i: int| !#[trigger] is_taken(before.owner, ids, i),
        takes_in(before.hot, ids, hot),
        before.added_as(hot, ids, after),
        after.well_formed(),
    ensures
        after.consistent(),
        after.ids() == before.ids().union(ids.to_set()),
        after.vectors() == before.vectors().union_prefer_right(
            Map::new(|id: u64| ids.contains(id), |id: u64| index_vectors(hot)[id]),
        ),
{
    let mid = before.recorded(hot, ids);
    assert forall|id: u64| ids.contains(id) implies !before.owner.contains_key(id) by {
        let i = ids.index_of(id);
        assert(!is_taken(before.owner, ids, i));
    }
    assert(mid.consistent()) by {
        assert(mid.owner.dom() =~= before.owner.dom().union(ids.to_set()));
        assert forall|id: u64| #[trigger] mid.routes(id) by {
            assert(before.routes(id));
        }
        assert(mid.owned(Owner::Hot) =~= before.owned(Owner::Hot).union(ids.to_set()));
        assert forall|s: usize| s < mid.sealed.len() implies index_ids(
            #[trigger] mid.sealed[s as int],
        ) == mid.owned(Owner::Sealed(s)) by {
            assert(index_ids(before.sealed[s as int]) == before.owned(Owner::Sealed(s)));
            assert(mid.owned(Owner::Sealed(s)) =~= before.owned(Owner::Sealed(s)));
        }
        assert forall|id: u64, s: usize| #[trigger] mid.tombstones.contains((id, s)) implies s
            < mid.sealed.len() && !index_ids(mid.sealed[s as int]).contains(id) by {
            assert(before.tombstones.contains((id, s)));
        }
    }
    assert(mid.ids() =~= before.ids().union(ids.to_set()));
    let grown = before.vectors().union_prefer_right(
        Map::new(|id: u64| ids.contains(id), |id: u64| index_vectors(hot)[id]),
    );
    assert(mid.vectors() =~= grown) by {
        assert forall|id: u64| mid.owner.contains_key(id) implies mid.vectors()[id]
            == grown[id] by {
            if !ids.contains(id) {
                assert(before.routes(id));
                if before.owner[id] == Owner::Hot {
                    assert(before.owned(Owner::Hot).contains(id));
                    assert(index_vectors(hot)[id] == index_vectors(before.hot)[id]);
                }
            }
        }
    }
    if index_ids(hot).len() >= before.max_hot {
        law_seal_preserves(mid, after);
    }
}

/// Removing an id keeps the bookkeeping in agreement with the segments. It reports
/// whether the id was live, takes exactly that id out, and changes no other vector.
pub proof fn law_remove_preserves(before: IndexState, id: u64, removed: bool, after: IndexState)
    requires
        before.consistent(),
        before.removed_as(id, removed, after),
        after.well_formed(),
    ensures
        after.consistent(),
        removed == before.ids().contains(id),
        after.ids() == before.ids().remove(id),
        after.vectors() == before.vectors().remove(id),
{
    assert(before.routes(id));
    assert(after.ids() =~= before.ids().remove(id));
    if before.owner.contains_key(id) {
        let tag = before.owner[id];
        assert(before.owned(tag).contains(id));
        assert forall|other: u64| #[trigger] after.routes(other) by {
            assert(before.routes(other));
        }
        assert(after.owned(tag) =~= before.owned(tag).remove(id));
        if tag != Owner::Hot {
            assert(after.owned(Owner::Hot) =~= before.owned(Owner::Hot));
        } else {
            assert(index_ids(after.hot) =~= index_ids(before.hot).remove(id));
        }
        assert forall|s: usize| s < after.sealed.len() implies index_ids(
            #[trigger] after.sealed[s as int],
        ) == after.owned(Owner::Sealed(s)) by {
            assert(index_ids(before.sealed[s as int]) == before.owned(Owner::Sealed(s)));
            if tag == Owner::Sealed(s) {
                assert(index_ids(after.sealed[s as int]) =~= index_ids(
                    before.sealed[s as int],
                ).remove(id));
            } else {
                assert(after.sealed[s as int] == before.sealed[s as int]);
                assert(after.owned(Owner::Sealed(s)) =~= before.owned(Owner::Sealed(s)));
            }
        }
        assert forall|other: u64, s: usize| #[trigger]
            after.tombstones.contains((other, s)) implies s < after.sealed.len() && !index_ids(
            after.sealed[s as int],
        ).contains(other) by {
            if before.tombstones.contains((other, s)) {
                assert(!index_ids(before.sealed[s as int]).contains(other));
            } else {
                assert(other == id && tag == Owner::Sealed(s));
            }
        }
        assert(after.vectors() =~= before.vectors().remove(id)) by {
            assert forall|other: u64| after.owner.contains_key(other) implies after.vectors()[other]
                == before.vectors()[other] by {
                assert(before.routes(other));
                assert(other != id);
            }
        }
    } else {
        assert(after.vectors() =~= before.vectors().remove(id));
    }
}

/// Adding leaves fewer vectors in the hot segment than its cap, so that what a later
/// search has to rebuild stays bounded.
pub proof fn law_hot_stays_below_cap(
    before: IndexState,
    hot: IdMapIndex,
    ids: Seq<u64>,
    after: IndexState,
)
    requires
        before.max_hot >= 1,
        before.added_as(hot, ids, after),
    ensures
        after.max_hot == before.max_hot,
        index_ids(after.hot).len() < after.max_hot,
{
}

/// One call seals at most one segment, and does so exactly where what the hot segment
/// held and the batch together reach the cap: a batch that overshoots it is not split.
pub proof fn law_add_seals_at_the_cap(
    before: IndexState,
    hot: IdMapIndex,
    ids: Seq<u64>,
    after: IndexState,
)
    requires
        before.consistent(),
        before.max_hot >= 1,
        forall|i: int| !#[trigger] is_taken(before.owner, ids, i),
        takes_in(before.hot, ids, hot),
        before.added_as(hot, ids, after),
    ensures
        after.sealed.len() == before.sealed.len() + if index_ids(before.hot).len() + ids.len()
            >= before.max_hot {
            1int
        } else {
            0int
        },
        index_ids(after.hot).len() < before.max_hot,
{
    let held = index_ids(before.hot);
    assert(held.subset_of(before.owner.dom())) by {
        assert forall|id: u64| held.contains(id) implies before.owner.dom().contains(id) by {
            assert(before.owned(Owner::Hot).contains(id));
        }
    }
    lemma_len_subset(held, before.owner.dom());
    assert(ids.no_duplicates()) by {
        assert forall|i: int, j: int| 0 <= i < j < ids.len() implies ids[i] != ids[j] by {
            assert(!is_taken(before.owner, ids, j));
            assert(ids.take(j)[i] == ids[i]);
        }
    }
    ids.unique_seq_to_set();
    assert(held.disjoint(ids.to_set())) by {
        assert forall|id: u64| held.contains(id) implies !ids.to_set().contains(id) by {
            if ids.contains(id) {
                let i = ids.index_of(id);
                assert(!is_taken(before.owner, ids, i));
            }
        }
    }
    lemma_set_disjoint_lens(held, ids.to_set());
    assert(held.union(ids.to_set()) =~= held + ids.to_set());
}

/// Removing an id a second time does nothing.
pub proof fn law_second_remove_does_nothing(
    first: IndexState,
    id: u64,
    removed: bool,
    second: IndexState,
    again: bool,
    third: IndexState,
)
    requires
        first.removed_as(id, removed, second),
        second.removed_as(id, again, third),
    ensures
        !again,
        third == second,
{
}

/// Sealing and adding leave every sealed segment as it is.
pub proof fn law_growth_keeps_sealed_segments(
    before: IndexState,
    hot: IdMapIndex,
    ids: Seq<u64>,
    after: IndexState,
    i: int,
)
    requires
        before.added_as(hot, ids, after) || before.sealed_as(after),
        0 <= i < before.sealed.len(),
    ensures
        i < after.sealed.len(),
        after.sealed[i] == before.sealed[i],
{
}

/// Removing touches no segment but the one that owns the id.
pub proof fn law_remove_touches_the_owner_alone(
    before: IndexState,
    id: u64,
    removed: bool,
    after: IndexState,
    tag: Owner,
)
    requires
        before.routes(id),
        before.removed_as(id, removed, after),
        tag matches Owner::Sealed(s) ==> s < before.sealed.len(),
        before.owner.contains_key(id) ==> before.owner[id] != tag,
    ensures
        after.segment_of(tag) == before.segment_of(tag),
{
}

/// Attaching to a directory and writing files there changes neither what an index
/// holds nor whether its bookkeeping agrees with it.
pub proof fn law_soundness_does_not_rest_on_files(before: IndexState, after: IndexState)
    requires
        before.consistent(),
        after.well_formed(),
        after == (IndexState {
            attached: after.attached,
            generation: after.generation,
            seg_files: after.seg_files,
            ..before
        }),
    ensures
        after.consistent(),
        after.ids() == before.ids(),
        after.vectors() == before.vectors(),
{
    assert forall|id: u64| #[trigger] after.routes(id) by {
        assert(before.routes(id));
    }
    assert forall|tag: Owner| #[trigger] after.owned(tag) == before.owned(tag) by {
        assert(after.owned(tag) =~= before.owned(tag));
    }
    assert forall|s: usize| s < after.sealed.len() implies index_ids(
        #[trigger] after.sealed[s as int],
    ) == after.owned(Owner::Sealed(s)) by {
        assert(before.sealed[s as int] == after.sealed[s as int]);
    }
    assert(after.vectors() =~= before.vectors());
}

proof fn lemma_whole_vectors(len: nat, dim: nat, n: nat)
    requires
        dim > 0,
    ensures
        len == n * dim <==> len % dim == 0 && len / dim == n,
        (exists|m: nat| len == #[trigger] (m * dim)) <==> len % dim == 0,
{
    lemma_fundamental_div_mod(len as int, dim as int);
    let q = len / dim;
    assert(q * dim == dim * q) by (nonlinear_arith);
    if len == n * dim {
        lemma_div_multiples_vanish(n as int, dim as int);
        lemma_mod_multiples_basic(n as int, dim as int);
        assert(n * dim == dim * n) by (nonlinear_arith);
    }
    if len % dim == 0 {
        assert(len == q * dim);
    }
    assert forall|m: nat| len == #[trigger] (m * dim) implies len % dim == 0 by {
        lemma_mod_multiples_basic(m as int, dim as int);
    }
}

/// A batch is refused only for cause. It goes to the encoder exactly where the buffer
/// holds one whole vector for each id, no id is listed twice and none is live; and each
/// refusal names what is wrong, the buffer first, then the number of ids, then the first
/// id that is taken.
pub proof fn law_a_batch_is_refused_only_for_cause<E>(
    state: IndexState,
    vectors_len: usize,
    ids: Seq<u64>,
)
    requires
        ids.len() <= usize::MAX,
    ensures
        state.refusal::<E>(vectors_len, ids) is None <==> {
            &&& state.dim > 0
            &&& vectors_len == ids.len() * state.dim
            &&& forall|i: int, j: int| 0 <= i < j < ids.len() ==> ids[i] != ids[j]
            &&& forall|i: int| 0 <= i < ids.len() ==> !state.owner.contains_key(#[trigger] ids[i])
        },
        match state.refusal::<E>(vectors_len, ids) {
            None => true,
            Some(AddError::VectorBufferNotMultipleOfDim { vectors_len: len, dim }) => {
                &&& len == vectors_len
                &&& dim == state.dim
                &&& dim == 0 || forall|n: nat| vectors_len != #[trigger] (n * (dim as nat))
            },
            Some(AddError::IdsCountMismatch { expected, got }) => {
                &&& state.dim > 0
                &&& vectors_len == expected * state.dim
                &&& got == ids.len()
                &&& expected != got
            },
            Some(AddError::IdAlreadyPresent(id)) => {
                &&& state.dim > 0
                &&& vectors_len == ids.len() * state.dim
                &&& exists|i: int|
                    {
                        &&& 0 <= i < ids.len()
                        &&& #[trigger] ids[i] == id
                        &&& state.owner.contains_key(id) || ids.take(i).contains(id)
                        &&& forall|j: int|
                            0 <= j < i ==> !state.owner.contains_key(#[trigger] ids[j])
                        &&& forall|l: int, j: int| 0 <= l < j < i ==> ids[l] != ids[j]
                    }
            },
            Some(AddError::Segment(_)) => false,
        },
{
    if state.dim > 0 {
        let (len, dim) = (vectors_len as nat, state.dim as nat);
        lemma_whole_vectors(len, dim, ids.len());
        lemma_whole_vectors(len, dim, len / dim);
        if len % dim == 0 && ids.len() == len / dim {
            if exists|i: int| #[trigger] is_taken(state.owner, ids, i) {
                let i = choose|i: int| #[trigger] is_taken(state.owner, ids, i);
                lemma_some_first_taken(state.owner, ids, i);
                let f = choose|i: int| #[trigger] is_first_taken(state.owner, ids, i);
                assert(is_taken(state.owner, ids, f));
                lemma_untaken(state.owner, ids, f);
                if !state.owner.contains_key(ids[f]) {
                    let l = ids.take(f).index_of(ids[f]);
                    assert(ids[l] == ids[f]);
                }
            } else {
                lemma_untaken(state.owner, ids, ids.len() as int);
            }
        }
    }
}

proof fn lemma_untaken(owner: Map<u64, Owner>, ids: Seq<u64>, n: int)
    requires
        0 <= n <= ids.len(),
        forall|j: int| 0 <= j < n ==> !#[trigger] is_taken(owner, ids, j),
    ensures
        forall|j: int| 0 <= j < n ==> !owner.contains_key(#[trigger] ids[j]),
        forall|l: int, j: int| 0 <= l < j < n ==> ids[l] != ids[j],
{
    assert forall|j: int| 0 <= j < n implies !owner.contains_key(#[trigger] ids[j]) by {
        assert(!is_taken(owner, ids, j));
    }
    assert forall|l: int, j: int| 0 <= l < j < n implies ids[l] != ids[j] by {
        assert(!is_taken(owner, ids, j));
        assert(ids.take(j)[l] == ids[l]);
    }
}

proof fn lemma_some_first_taken(owner: Map<u64, Owner>, ids: Seq<u64>, i: int)
    requires
        is_taken(owner, ids, i),
    ensures
        exists|j: int| #[trigger] is_first_taken(owner, ids, j),
    decreases i,
{
    if exists|j: int| 0 <= j < i && #[trigger] is_taken(owner, ids, j) {
        let j = choose|j: int| 0 <= j < i && #[trigger] is_taken(owner, ids, j);
        lemma_some_first_taken(owner, ids, j);
    } else {
        assert(is_first_taken(owner, ids, i));
    }
}

/// A good batch is taken in whole: where there is one whole vector for each id, no id is
/// listed twice and none is live, the batch is not refused, and once it is encoded the
/// live ids are those from before and those of the batch, each with its vector.
pub proof fn law_a_good_batch_is_taken_in<E>(
    before: IndexState,
    vectors_len: usize,
    ids: Seq<u64>,
    hot: IdMapIndex,
    after: IndexState,
)
    requires
        before.consistent(),
        ids.len() <= usize::MAX,
        vectors_len == ids.len() * before.dim,
        forall|i: int, j: int| 0 <= i < j < ids.len() ==> ids[i] != ids[j],
        forall|i: int| 0 <= i < ids.len() ==> !before.owner.contains_key(#[trigger] ids[i]),
        takes_in(before.hot, ids, hot),
        before.added_as(hot, ids, after),
        after.well_formed(),
    ensures
        before.refusal::<E>(vectors_len, ids) is None,
        after.consistent(),
        forall|id: u64| #[trigger]
            after.owner.contains_key(id) <==> before.owner.contains_key(id) || ids.contains(id),
        after.owner.dom().len() == before.owner.dom().len() + ids.len(),
        forall|i: int|
            0 <= i < ids.len() ==> after.vectors()[#[trigger] ids[i]] == index_vectors(
                hot,
            )[ids[i]],
        forall|id: u64|
            before.owner.contains_key(id) ==> #[trigger] after.vectors()[id]
                == before.vectors()[id],
{
    law_a_batch_is_refused_only_for_cause::<E>(before, vectors_len, ids);
    assert forall|i: int| !#[trigger] is_taken(before.owner, ids, i) by {
        if is_taken(before.owner, ids, i) {
            let l = ids.take(i).index_of(ids[i]);
            assert(ids[l] == ids[i]);
        }
    }
    law_add_preserves(before, hot, ids, after);
    let (old_ids, new_ids) = (before.ids(), ids.to_set());
    assert forall|id: u64| #[trigger] after.owner.contains_key(id) <==> before.owner.contains_key(
        id,
    ) || ids.contains(id) by {
        assert(after.ids().contains(id) <==> old_ids.union(new_ids).contains(id));
    }
    ids.unique_seq_to_set();
    assert(old_ids.disjoint(new_ids));
    lemma_set_disjoint_lens(old_ids, new_ids);
    assert(after.ids() =~= old_ids + new_ids);
    assert forall|i: int| 0 <= i < ids.len() implies after.vectors()[#[trigger] ids[i]]
        == index_vectors(hot)[ids[i]] by {
        assert(ids.contains(ids[i]));
    }
    assert forall|id: u64| before.owner.contains_key(id) implies #[trigger] after.vectors()[id]
        == before.vectors()[id] by {
        assert(!ids.contains(id));
    }
}

/// What sealing does: where the hot segment holds anything, it becomes the last sealed
/// segment, without a file, and owns what it owned; an empty one takes its place. All
/// else stays.
pub proof fn law_what_sealing_does(before: IndexState, after: IndexState)
    requires
        before.sealed_as(after),
        before.sealed.len() <= usize::MAX,
        before.seg_files.len() == before.sealed.len(),
    ensures
        after.dim == before.dim,
        after.bit_width == before.bit_width,
        after.max_hot == before.max_hot,
        after.attached == before.attached,
        after.generation == before.generation,
        after.tombstones == before.tombstones,
        index_vectors(before.hot).dom() == Set::<u64>::empty() ==> after == before,
        index_vectors(before.hot).dom() != Set::<u64>::empty() ==> {
            &&& after.sealed.len() == before.sealed.len() + 1
            &&& after.seg_files.len() == before.sealed.len() + 1
            &&& after.sealed.last() == before.hot
            &&& after.seg_files.last() is None
            &&& index_vectors(after.hot).dom() == Set::<u64>::empty()
            &&& index_shape(after.hot) == (before.dim, before.bit_width)
            &&& after.hot_ids == Set::<u64>::empty()
        },
        forall|i: int|
            0 <= i < before.sealed.len() ==> #[trigger] after.sealed[i] == before.sealed[i]
                && after.seg_files[i] == before.seg_files[i],
        forall|id: u64| #[trigger]
            after.owner.contains_key(id) <==> before.owner.contains_key(id)
                || index_vectors(before.hot).dom() != Set::<u64>::empty()
                && before.hot_ids.contains(id),
        forall|id: u64|
            before.owner.contains_key(id) && (!before.hot_ids.contains(id) || index_vectors(
                before.hot,
            ).dom() == Set::<u64>::empty()) ==> #[trigger] after.owner[id] == before.owner[id],
        forall|id: u64|
            before.hot_ids.contains(id) && index_vectors(before.hot).dom() != Set::<u64>::empty()
                ==> #[trigger] after.owner[id] == Owner::Sealed(before.sealed.len() as usize),
{
}

/// What adding does, given what the encoder made of the hot segment. The ids of the batch
/// are live and owned by the hot segment; where that has grown to its cap it is sealed in the
/// same call, and then the sealed segment owns all that the hot one owned. Nothing else
/// changes: neither the numbers, the directory, the generation, the recorded deletes, nor any
/// sealed segment, its file and the ids it owns.
pub proof fn law_what_adding_does(
    before: IndexState,
    hot: IdMapIndex,
    ids: Seq<u64>,
    after: IndexState,
)
    requires
        before.sealed.len() <= usize::MAX,
        before.seg_files.len() == before.sealed.len(),
        before.added_as(hot, ids, after),
    ensures
        after.dim == before.dim,
        after.bit_width == before.bit_width,
        after.max_hot == before.max_hot,
        after.attached == before.attached,
        after.generation == before.generation,
        after.tombstones == before.tombstones,
        forall|i: int|
            0 <= i < before.sealed.len() ==> #[trigger] after.sealed[i] == before.sealed[i]
                && after.seg_files[i] == before.seg_files[i],
        forall|id: u64| #[trigger]
            after.owner.contains_key(id) <==> before.owner.contains_key(id) || ids.contains(id)
                || after.sealed.len() > before.sealed.len() && before.hot_ids.contains(id),
        if index_vectors(hot).dom().len() >= before.max_hot && index_vectors(hot).dom() != Set::<
            u64,
        >::empty() {
            &&& after.sealed.len() == before.sealed.len() + 1
            &&& after.seg_files.len() == before.sealed.len() + 1
            &&& after.sealed.last() == hot
            &&& after.seg_files.last() is None
            &&& index_vectors(after.hot).dom() == Set::<u64>::empty()
            &&& index_shape(after.hot) == (before.dim, before.bit_width)
            &&& after.hot_ids == Set::<u64>::empty()
            &&& forall|id: u64|
                after.owner.contains_key(id) ==> #[trigger] after.owner[id] == if ids.contains(id)
                    || before.hot_ids.contains(id) {
                    Owner::Sealed(before.sealed.len() as usize)
                } else {
                    before.owner[id]
                }
        } else {
            &&& after.sealed.len() == before.sealed.len()
            &&& after.seg_files.len() == before.sealed.len()
            &&& after.hot == hot
            &&& forall|id: u64| #[trigger]
                after.hot_ids.contains(id) <==> before.hot_ids.contains(id) || ids.contains(id)
            &&& forall|id: u64|
                after.owner.contains_key(id) ==> #[trigger] after.owner[id] == if ids.contains(
                    id,
                ) {
                    Owner::Hot
                } else {
                    before.owner[id]
                }
        },
{
    let mid = before.recorded(hot, ids);
    assert forall|id: u64| ids.to_set().contains(id) <==> ids.contains(id) by {}
    if index_ids(hot).len() >= before.max_hot {
        law_what_sealing_does(mid, after);
    }
}

/// What removing does: the id is no longer live; it reports whether the segment that owned
/// the id held it, and takes it out of that segment alone. A delete from a sealed segment is
/// put on record with that segment, one from the hot segment is not. All else stays.
pub proof fn law_what_removing_does(before: IndexState, id: u64, removed: bool, after: IndexState)
    requires
        before.routes(id),
        before.removed_as(id, removed, after),
    ensures
        removed == (before.owner.contains_key(id) && index_vectors(
            before.segment_of(before.owner[id]),
        ).contains_key(id)),
        before.owner.contains_key(id) ==> index_vectors(after.segment_of(before.owner[id]))
            == index_vectors(before.segment_of(before.owner[id])).remove(id),
        after.dim == before.dim,
        after.bit_width == before.bit_width,
        after.max_hot == before.max_hot,
        after.attached == before.attached,
        after.generation == before.generation,
        after.seg_files == before.seg_files,
        after.sealed.len() == before.sealed.len(),
        forall|i: int|
            0 <= i < before.sealed.len() && !(before.owner.contains_key(id) && before.owner[id]
                == Owner::Sealed(i as usize)) ==> #[trigger] after.sealed[i] == before.sealed[i],
        !(before.owner.contains_key(id) && before.owner[id] == Owner::Hot) ==> after.hot
            == before.hot,
        !after.owner.contains_key(id),
        forall|other: u64|
            other != id ==> (#[trigger] after.owner.contains_key(other)
                <==> before.owner.contains_key(other)),
        forall|other: u64|
            other != id && before.owner.contains_key(other) ==> #[trigger] after.owner[other]
                == before.owner[other],
        forall|other: u64, s: usize| #[trigger]
            after.tombstones.contains((other, s)) <==> before.tombstones.contains((other, s))
                || other == id && removed && before.owner[id] == Owner::Sealed(s),
        forall|other: u64| #[trigger]
            after.hot_ids.contains(other) <==> before.hot_ids.contains(other) && !(other == id
                && before.owner.contains_key(id) && before.owner[id] == Owner::Hot),
{
}

/// When the bookkeeping can be followed: where an id is live in a sealed segment, that
/// segment exists. When the hot segment can be sealed: where a fresh one of the same
/// dimensions can be made.
pub proof fn law_what_can_be_followed(state: IndexState, id: u64)
    ensures
        state.routes(id) <==> !(state.owner.contains_key(id) && state.owner[id] is Sealed
            && state.owner[id]->Sealed_0 >= state.sealed.len()),
        state.sealable() <==> 0 < state.dim <= 16384 && state.dim % 8 == 0 && 2 <= state.bit_width
            <= 4,
{
}

/// A fresh index holds nothing, has the dimensions that were asked for, and seals at the
/// cap that was asked for, or at 1 where that was 0.
pub proof fn law_a_fresh_index_is_as_asked(
    state: IndexState,
    dim: usize,
    bit_width: usize,
    max_hot: usize,
)
    requires
        state.is_fresh(dim, bit_width, max_hot),
    ensures
        state.consistent(),
        state.dim == dim,
        state.bit_width == bit_width,
        state.max_hot >= 1,
        max_hot >= 1 ==> state.max_hot == max_hot,
        max_hot == 0 ==> state.max_hot == 1,
        state.owner.dom() == Set::<u64>::empty(),
        state.vectors().dom() == Set::<u64>::empty(),
        index_vectors(state.hot).dom() == Set::<u64>::empty(),
        index_shape(state.hot) == (dim, bit_width),
        state.hot_ids == Set::<u64>::empty(),
        state.sealed.len() == 0,
        state.seg_files.len() == 0,
        state.tombstones == Set::<(u64, usize)>::empty(),
        !state.attached,
        state.generation == 0,
{
    assert(state.vectors().dom() =~= Set::empty());
}

/// The dimensions of an index are refused only for cause: the bit width must be 2, 3 or 4,
/// and the dimension a positive multiple of 8 up to 16384; the bit width is looked at first.
pub proof fn law_dimensions_are_refused_only_for_cause(dim: usize, bit_width: usize)
    ensures
        construct_error(dim, bit_width) is None <==> 0 < dim <= 16384 && dim % 8 == 0 && (
        bit_width == 2 || bit_width == 3 || bit_width == 4),
        match construct_error(dim, bit_width) {
            None => true,
            Some(ConstructError::BitWidthOutOfRange(b)) => b == bit_width && !(2 <= b <= 4),
            Some(ConstructError::DimNotPositiveMultipleOf8(d)) => d == dim && (d == 0 || d % 8
                != 0) && 2 <= bit_width <= 4,
            Some(ConstructError::DimTooLarge { dim: d, max }) => d == dim && d > max && max
                == 16384 && d % 8 == 0 && 2 <= bit_width <= 4,
            Some(ConstructError::Other) => false,
        },
{
}

} // verus!
