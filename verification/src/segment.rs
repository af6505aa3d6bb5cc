//! The segmented index: a log-structured build layer over `turbovec::IdMapIndex`.
//!
//! A vector index is built to be loaded once and queried often: every change throws
//! its search layout away, and the next search builds it again over all it holds. So
//! the vectors are split into sealed segments, which take no more inserts, and one
//! small hot segment, which takes them all. Once the hot segment has grown to its cap
//! it is sealed and a fresh one takes its place; what an insert makes a search rebuild
//! is bounded by that cap. A delete goes to the one segment that owns the id. A search
//! asks every segment for its own best and merges the answers.
//!
//! Each segment is encoded and scored by turbovec alone: the caller hands in how.
use std::collections::{HashMap, HashSet};
use turbovec::IdMapIndex;
use vstd::prelude::*;

use crate::fanout::{
    answers, answers_among, collect, collect_among, fan_out, fan_out_among, finds, finds_among,
    lemma_join_one,
};
use crate::idmap::{
    ConstructError, construct_error, index_ids, index_is_empty, index_len, index_prepare,
    index_remove, new_index,
};
use crate::laws::{law_add_preserves, law_remove_preserves, law_seal_preserves, takes_in};
use crate::score::{Hit, best};
use crate::state::{AddError, IndexState, Owner, is_first_taken, is_taken, repointed, routed};
use crate::tombstones::Tombstones;
use crate::topk::joined;

pub mod opening;
pub mod store;

verus! {

broadcast use vstd::std_specs::hash::group_hash_axioms;

/// A segmented, incrementally mutable index over turbovec.
pub struct SegmentedIndex {
    dim: usize,
    bit_width: usize,
    /// A soft cap: a single batch may overshoot it.
    max_hot: usize,
    sealed: Vec<IdMapIndex>,
    hot: IdMapIndex,
    /// Doubles as the set of live ids.
    owner: HashMap<u64, Owner>,
    /// The ids in the hot segment, so that sealing need not look through `owner`.
    hot_ids: HashSet<u64>,
    attached: bool,
    generation: u64,
    /// Parallel to `sealed`.
    seg_files: Vec<Option<String>>,
    tombstones: Tombstones,
}

/// The names in a list of optional file names.
pub open spec fn names_of(files: Seq<Option<String>>) -> Seq<Option<Seq<char>>> {
    files.map_values(
        |f: Option<String>|
            match f {
                Some(name) => Some(name@),
                None => None,
            },
    )
}

/// A list of optional file names keeps its length, and each entry its name.
pub proof fn law_names_stand_where_the_files_do(files: Seq<Option<String>>)
    ensures
        names_of(files).len() == files.len(),
        forall|i: int|
            0 <= i < files.len() ==> match files[i] {
                Some(name) => #[trigger] names_of(files)[i] == Some(name@),
                None => names_of(files)[i] is None,
            },
{
}

proof fn lemma_set_of_push(ids: Seq<u64>, id: u64)
    ensures
        ids.push(id).to_set() == ids.to_set().insert(id),
{
    broadcast use vstd::seq_lib::group_seq_properties;

    assert(ids.push(id).to_set() =~= ids.to_set().insert(id));
}

/// Give all of `ids` to `to`.
fn repoint(owner: &mut HashMap<u64, Owner>, ids: &HashSet<u64>, to: Owner)
    ensures
        final(owner)@ == repointed(old(owner)@, ids@, to),
{
    let ghost mut seen: Set<u64> = Set::empty();
    assert(owner@ =~= repointed(owner@, seen, to));
    for id in it: ids.iter()
        invariant
            it.seq().unref().to_set() == ids@,
            seen.subset_of(ids@),
            forall|j: int| 0 <= j < it.index() ==> seen.contains(*(#[trigger] it.seq()[j])),
            owner@ == repointed(old(owner)@, seen, to),
    {
        proof {
            assert(it.seq().unref()[it.index()] == *id);
            assert(it.seq().unref().to_set().contains(*id));
            seen = seen.insert(*id);
        }
        owner.insert(*id, to);
        assert(owner@ =~= repointed(old(owner)@, seen, to));
    }
    assert(seen =~= ids@);
}

impl View for SegmentedIndex {
    type V = IndexState;

    closed spec fn view(&self) -> IndexState {
        IndexState {
            dim: self.dim,
            bit_width: self.bit_width,
            max_hot: self.max_hot,
            sealed: self.sealed@,
            hot: self.hot,
            owner: self.owner@,
            hot_ids: self.hot_ids@,
            attached: self.attached,
            generation: self.generation,
            seg_files: names_of(self.seg_files@),
            tombstones: self.tombstones@,
        }
    }
}

impl SegmentedIndex {
    /// Create an empty index. `dim` must be a positive multiple of 8 and `bit_width`
    /// one of 2, 3 and 4. A cap of 0 for the hot segment counts as 1.
    pub fn new(dim: usize, bit_width: usize, max_hot: usize) -> (r: Result<Self, ConstructError>)
        ensures
            match r {
                Ok(index) => construct_error(dim, bit_width) is None && index@.is_fresh(
                    dim,
                    bit_width,
                    max_hot,
                ),
                Err(e) => construct_error(dim, bit_width) == Some(e),
            },
    {
        let hot: IdMapIndex = match new_index(dim, bit_width) {
            Ok(hot) => hot,
            Err(e) => {
                return Err(e);
            },
        };
        let index: Self = Self {
            dim,
            bit_width,
            max_hot: if max_hot == 0 {
                1
            } else {
                max_hot
            },
            sealed: Vec::new(),
            hot,
            owner: HashMap::new(),
            hot_ids: HashSet::new(),
            attached: false,
            generation: 0,
            seg_files: Vec::new(),
            tombstones: Tombstones::new(),
        };
        proof {
            assert(index_ids(index@.hot) =~= Set::empty());
            assert(index@.owned(Owner::Hot) =~= Set::empty());
            assert(names_of(index.seg_files@) =~= Seq::empty());
        }
        Ok(index)
    }

    /// Seal the hot segment: move it onto the sealed list and start a fresh one.
    /// Nothing happens where the hot segment is empty.
    pub fn seal(&mut self)
        requires
            old(self)@.well_formed(),
            index_ids(old(self)@.hot) != Set::<u64>::empty() ==> old(self)@.sealable(),
        ensures
            old(self)@.sealed_as(final(self)@),
            final(self)@.well_formed(),
            old(self)@.consistent() ==> final(self)@.consistent(),
    {
        if index_is_empty(&self.hot) {
            return;
        }
        let ghost before: IndexState = self@;
        let new_idx: usize = self.sealed.len();
        index_prepare(&self.hot);
        let mut segment: IdMapIndex = match new_index(self.dim, self.bit_width) {
            Ok(fresh) => fresh,
            Err(_) => {
                return;
            },
        };
        std::mem::swap(&mut self.hot, &mut segment);
        self.sealed.push(segment);
        self.seg_files.push(None);
        repoint(&mut self.owner, &self.hot_ids, Owner::Sealed(new_idx));
        self.hot_ids.clear();
        proof {
            assert(self@.seg_files =~= before.seg_files.push(None));
            assert(self.sealed.len() == self.sealed@.len());
            if before.consistent() {
                law_seal_preserves(before, self@);
            }
        }
    }

    /// Add the vectors of a flat buffer of `vectors_len` coordinates under the given
    /// external ids, one for each vector.
    ///
    /// An id must be new to the index and to the batch; where one is not, the whole
    /// batch is refused and nothing changes. `encode` is handed the hot segment, the
    /// dimension and the ids, and adds the vectors to that segment. Once the hot
    /// segment has grown to its cap it is sealed, for which a fresh one must be possible.
    pub fn add<F, E>(&mut self, vectors_len: usize, ids: &[u64], encode: F) -> (r: Result<
        (),
        AddError<E>,
    >) where F: FnOnce(&mut IdMapIndex, usize, &[u64]) -> Result<(), E>
        requires
            old(self)@.well_formed(),
            old(self)@.refusal::<E>(vectors_len, ids@) is None ==> forall|
                hot: &mut IdMapIndex,
                encoded: Result<(), E>,
            |
                *hot == old(self)@.hot && #[trigger] call_ensures(
                    encode,
                    (hot, old(self)@.dim, ids),
                    encoded,
                ) && encoded is Ok && index_ids(*final(hot)).len() >= old(self)@.max_hot
                    && index_ids(*final(hot)) != Set::<u64>::empty() ==> old(self)@.sealable(),
            old(self)@.refusal::<E>(vectors_len, ids@) is None ==> forall|hot: &mut IdMapIndex|
                *hot == old(self)@.hot ==> #[trigger] call_requires(
                    encode,
                    (hot, old(self)@.dim, ids),
                ),
        ensures
            final(self)@.well_formed(),
            match old(self)@.refusal::<E>(vectors_len, ids@) {
                Some(e) => r == Err::<(), AddError<E>>(e) && final(self)@ == old(self)@,
                None => exists|hot: &mut IdMapIndex, encoded: Result<(), E>|
                    {
                        &&& *hot == old(self)@.hot
                        &&& #[trigger] call_ensures(
                            encode,
                            (hot, old(self)@.dim, ids),
                            encoded,
                        )
                        &&& match encoded {
                            Ok(()) => {
                                &&& r is Ok
                                &&& old(self)@.added_as(*final(hot), ids@, final(self)@)
                                &&& old(self)@.consistent() && takes_in(
                                    *hot,
                                    ids@,
                                    *final(hot),
                                ) ==> final(self)@.consistent()
                            },
                            Err(e) => {
                                &&& r == Err::<(), AddError<E>>(AddError::Segment(e))
                                &&& final(self)@ == IndexState { hot: *final(hot), ..old(self)@ }
                            },
                        }
                    },
            },
    {
        let ghost before: IndexState = self@;
        let dim: usize = self.dim;
        if dim == 0 || vectors_len % dim != 0 {
            return Err(AddError::VectorBufferNotMultipleOfDim { vectors_len, dim });
        }
        let n: usize = vectors_len / dim;
        if ids.len() != n {
            return Err(AddError::IdsCountMismatch { expected: n, got: ids.len() });
        }
        match self.first_taken(ids) {
            Some(id) => {
                return Err(AddError::IdAlreadyPresent(id));
            },
            None => {},
        }
        match encode(&mut self.hot, dim, ids) {
            Ok(()) => {},
            Err(e) => {
                return Err(AddError::Segment(e));
            },
        }
        let ghost hot: IdMapIndex = self.hot;
        self.claim(ids);
        if index_len(&self.hot) >= self.max_hot {
            self.seal();
        }
        proof {
            if before.consistent() && takes_in(before.hot, ids@, hot) {
                law_add_preserves(before, hot, ids@, self@);
            }
        }
        Ok(())
    }

    /// The first id of the batch that is already live or stands earlier in the batch.
    fn first_taken(&self, ids: &[u64]) -> (r: Option<u64>)
        ensures
            match r {
                Some(id) => exists|i: int|
                    #[trigger] is_first_taken(self@.owner, ids@, i) && id == ids@[i],
                None => forall|i: int| !#[trigger] is_taken(self@.owner, ids@, i),
            },
    {
        let mut seen: HashSet<u64> = HashSet::with_capacity(ids.len());
        let mut i: usize = 0;
        while i < ids.len()
            invariant
                i <= ids.len(),
                seen@ == ids@.take(i as int).to_set(),
                forall|j: int| 0 <= j < i ==> !#[trigger] is_taken(self@.owner, ids@, j),
            decreases ids.len() - i,
        {
            let id: u64 = ids[i];
            if self.owner.contains_key(&id) || !seen.insert(id) {
                assert(is_first_taken(self@.owner, ids@, i as int));
                return Some(id);
            }
            proof {
                assert(ids@.take(i + 1) =~= ids@.take(i as int).push(id));
                lemma_set_of_push(ids@.take(i as int), id);
            }
            i += 1;
        }
        None
    }

    /// Record a batch of ids as owned by the hot segment.
    fn claim(&mut self, ids: &[u64])
        ensures
            final(self)@ == old(self)@.recorded(old(self)@.hot, ids@),
    {
        let mut i: usize = 0;
        assert(self@ =~= self@.recorded(self@.hot, ids@.take(0)));
        while i < ids.len()
            invariant
                i <= ids.len(),
                self@ == old(self)@.recorded(old(self)@.hot, ids@.take(i as int)),
            decreases ids.len() - i,
        {
            self.owner.insert(ids[i], Owner::Hot);
            self.hot_ids.insert(ids[i]);
            proof {
                let (front, more) = (ids@.take(i as int), ids@.take(i + 1));
                assert(more =~= front.push(ids@[i as int]));
                lemma_set_of_push(front, ids@[i as int]);
                assert(self@ =~= old(self)@.recorded(old(self)@.hot, more));
            }
            i += 1;
        }
        assert(ids@.take(i as int) =~= ids@);
    }

    /// Remove the vector with external id `id`, and say whether it was there.
    pub fn remove(&mut self, id: u64) -> (removed: bool)
        requires
            old(self)@.well_formed(),
            old(self)@.routes(id),
        ensures
            old(self)@.removed_as(id, removed, final(self)@),
            final(self)@.well_formed(),
            old(self)@.consistent() ==> final(self)@.consistent() && removed
                == old(self)@.ids().contains(id),
    {
        let ghost before: IndexState = self@;
        let removed: bool = match self.owner.remove(&id) {
            None => false,
            Some(Owner::Hot) => {
                self.hot_ids.remove(&id);
                index_remove(&mut self.hot, id)
            },
            Some(Owner::Sealed(seg)) => {
                let removed: bool = index_remove(&mut self.sealed[seg], id);
                if removed {
                    self.tombstones.insert(id, seg);
                }
                removed
            },
        };
        proof {
            if before.owner.contains_key(id) {
                match before.owner[id] {
                    Owner::Hot => {
                        assert(self@ =~= (IndexState {
                            owner: before.owner.remove(id),
                            hot_ids: before.hot_ids.remove(id),
                            hot: self@.hot,
                            ..before
                        }));
                    },
                    Owner::Sealed(s) => {
                        assert(self@ =~= (IndexState {
                            owner: before.owner.remove(id),
                            sealed: before.sealed.update(s as int, self@.sealed[s as int]),
                            tombstones: self@.tombstones,
                            ..before
                        }));
                    },
                }
            } else {
                assert(self@ =~= before);
            }
            if before.consistent() {
                law_remove_preserves(before, id, removed, self@);
            }
        }
        removed
    }

    /// The `k` nearest ids for one query of `query_len` coordinates, best first.
    ///
    /// `ask` is handed a segment and `k`, and gives that segment's own answer to the
    /// query. Every segment that holds anything is asked.
    pub fn search<F>(&self, query_len: usize, k: usize, ask: F) -> (top: Vec<Hit>) where
        F: Fn(&IdMapIndex, usize) -> Vec<Hit>,

        requires
            query_len == self@.dim,
            k > 0 ==> forall|i: int|
                0 <= i < self@.segments().len() && index_ids(#[trigger] self@.segments()[i])
                    != Set::<u64>::empty() ==> call_requires(ask, (&self@.segments()[i], k)),
        ensures
            finds(ask, self@.segments(), k, top@),
    {
        if k == 0 {
            return Vec::new();
        }
        let mut merged: Vec<Hit> = Vec::new();
        let ghost mut found: Seq<Seq<Hit>> = Seq::empty();
        let mut i: usize = 0;
        while i < self.sealed.len()
            invariant
                k > 0,
                i <= self.sealed.len(),
                found.len() == i,
                merged@ == joined(found),
                forall|j: int|
                    0 <= j < self@.segments().len() && index_ids(#[trigger] self@.segments()[j])
                        != Set::<u64>::empty() ==> call_requires(ask, (&self@.segments()[j], k)),
                forall|j: int|
                    0 <= j < i ==> answers(
                        ask,
                        #[trigger] self@.segments()[j],
                        k,
                        #[trigger] found[j],
                    ),
            decreases self.sealed.len() - i,
        {
            assert(self.sealed@[i as int] == self@.segments()[i as int]);
            let mut given: Vec<Hit> = collect(&ask, &self.sealed[i], k);
            proof {
                found = lemma_join_one(found, given@);
            }
            merged.append(&mut given);
            i += 1;
        }
        assert(self.hot == self@.segments()[i as int]);
        let mut given: Vec<Hit> = collect(&ask, &self.hot, k);
        proof {
            found = lemma_join_one(found, given@);
        }
        merged.append(&mut given);
        assert(fan_out(ask, self@.segments(), k, found));
        best(merged, k)
    }

    /// The `k` nearest ids among the `allowed` ones, for one query of `query_len`
    /// coordinates, best first.
    ///
    /// The allowed ids are parted by the segment that owns them; an id that is not
    /// live is ignored. `ask` is handed a segment, `k` and the ids that fell to that
    /// segment, and gives the segment's own answer among them. A segment to which
    /// none fell is not asked.
    pub fn search_with_allowlist<F>(
        &self,
        query_len: usize,
        k: usize,
        allowed: &[u64],
        ask: F,
    ) -> (top: Vec<Hit>) where F: Fn(&IdMapIndex, usize, &[u64]) -> Vec<Hit>
        requires
            query_len == self@.dim,
            k > 0 ==> forall|j: int| 0 <= j < allowed@.len() ==> self@.routes(
                #[trigger] allowed@[j],
            ),
            k > 0 ==> forall|i: int, handed: &[u64]|
                0 <= i < self@.segments().len() && handed@.len() > 0 && handed@ == routed(
                    allowed@,
                    self@.owner,
                    self@.tag(i),
                ) ==> #[trigger] call_requires(ask, (&self@.segments()[i], k, handed)),
        ensures
            finds_among(ask, self@, k, allowed@, top@),
    {
        if k == 0 {
            return Vec::new();
        }
        let (per_sealed, per_hot): (Vec<Vec<u64>>, Vec<u64>) = self.part(allowed);
        let mut merged: Vec<Hit> = Vec::new();
        let ghost mut found: Seq<Seq<Hit>> = Seq::empty();
        let mut i: usize = 0;
        while i < self.sealed.len()
            invariant
                k > 0,
                i <= self.sealed.len(),
                found.len() == i,
                merged@ == joined(found),
                per_sealed.len() == self.sealed.len(),
                forall|s: usize|
                    s < per_sealed.len() ==> (#[trigger] per_sealed@[s as int])@ == routed(
                        allowed@,
                        self@.owner,
                        Owner::Sealed(s),
                    ),
                forall|j: int, handed: &[u64]|
                    0 <= j < self@.segments().len() && handed@.len() > 0 && handed@ == routed(
                        allowed@,
                        self@.owner,
                        self@.tag(j),
                    ) ==> #[trigger] call_requires(ask, (&self@.segments()[j], k, handed)),
                forall|j: int|
                    0 <= j < i ==> answers_among(
                        ask,
                        #[trigger] self@.segments()[j],
                        k,
                        routed(allowed@, self@.owner, self@.tag(j)),
                        #[trigger] found[j],
                    ),
            decreases self.sealed.len() - i,
        {
            assert(self.sealed@[i as int] == self@.segments()[i as int]);
            assert(self@.tag(i as int) == Owner::Sealed(i));
            let mut given: Vec<Hit> = collect_among(&ask, &self.sealed[i], k, &per_sealed[i]);
            proof {
                found = lemma_join_one(found, given@);
            }
            merged.append(&mut given);
            i += 1;
        }
        assert(self.hot == self@.segments()[i as int]);
        assert(self@.tag(i as int) == Owner::Hot);
        let mut given: Vec<Hit> = collect_among(&ask, &self.hot, k, &per_hot);
        proof {
            found = lemma_join_one(found, given@);
        }
        merged.append(&mut given);
        assert(fan_out_among(ask, self@, k, allowed@, found));
        best(merged, k)
    }

    /// Part the allowed ids by owning segment, each once, leaving out what is not
    /// live.
    fn part(&self, allowed: &[u64]) -> (r: (Vec<Vec<u64>>, Vec<u64>))
        requires
            forall|j: int| 0 <= j < allowed@.len() ==> self@.routes(#[trigger] allowed@[j]),
        ensures
            r.0.len() == self@.sealed.len(),
            forall|s: usize|
                s < r.0.len() ==> (#[trigger] r.0@[s as int])@ == routed(
                    allowed@,
                    self@.owner,
                    Owner::Sealed(s),
                ),
            r.1@ == routed(allowed@, self@.owner, Owner::Hot),
    {
        let mut per_sealed: Vec<Vec<u64>> = Vec::new();
        while per_sealed.len() < self.sealed.len()
            invariant
                per_sealed.len() <= self.sealed.len(),
                forall|s: int|
                    0 <= s < per_sealed.len() ==> (#[trigger] per_sealed@[s])@ == Seq::<
                        u64,
                    >::empty(),
            decreases self.sealed.len() - per_sealed.len(),
        {
            per_sealed.push(Vec::new());
        }
        let mut per_hot: Vec<u64> = Vec::new();
        let mut seen: HashSet<u64> = HashSet::with_capacity(allowed.len());
        let mut i: usize = 0;
        assert(allowed@.take(0) =~= Seq::empty());
        while i < allowed.len()
            invariant
                i <= allowed.len(),
                forall|j: int| 0 <= j < allowed@.len() ==> self@.routes(#[trigger] allowed@[j]),
                seen@ == allowed@.take(i as int).to_set(),
                per_sealed.len() == self.sealed.len(),
                forall|s: usize|
                    s < per_sealed.len() ==> (#[trigger] per_sealed@[s as int])@ == routed(
                        allowed@.take(i as int),
                        self@.owner,
                        Owner::Sealed(s),
                    ),
                per_hot@ == routed(allowed@.take(i as int), self@.owner, Owner::Hot),
            decreases allowed.len() - i,
        {
            let id: u64 = allowed[i];
            proof {
                let (front, more) = (allowed@.take(i as int), allowed@.take(i + 1));
                assert(more =~= front.push(id));
                assert(more.drop_last() =~= front);
                lemma_set_of_push(front, id);
                assert(self@.routes(allowed@[i as int]));
            }
            if seen.insert(id) {
                match self.owner.get(&id) {
                    Some(Owner::Sealed(s)) => {
                        per_sealed[*s].push(id);
                    },
                    Some(Owner::Hot) => {
                        per_hot.push(id);
                    },
                    None => {},
                }
            }
            i += 1;
        }
        assert(allowed@.take(i as int) =~= allowed@);
        (per_sealed, per_hot)
    }

    /// Number of live vectors across all segments.
    pub fn len(&self) -> (n: usize)
        ensures
            n == self@.ids().len(),
    {
        self.owner.len()
    }

    /// Whether there is no live vector.
    pub fn is_empty(&self) -> (r: bool)
        ensures
            r == (self@.ids() == Set::<u64>::empty()),
    {
        let r: bool = self.owner.is_empty();
        proof {
            if r {
                assert(self.owner@.dom() =~= Set::empty());
            }
        }
        r
    }

    /// Number of sealed segments; the hot one does not count.
    pub fn n_sealed(&self) -> (n: usize)
        ensures
            n == self@.sealed.len(),
    {
        self.sealed.len()
    }

    /// The last committed generation; 0 where nothing was committed.
    pub fn generation(&self) -> (g: u64)
        ensures
            g == self@.generation,
    {
        self.generation
    }

    /// The dimension of every vector.
    pub fn dim(&self) -> (d: usize)
        ensures
            d == self@.dim,
    {
        self.dim
    }

    /// The number of bits that encode one coordinate.
    pub fn bit_width(&self) -> (b: usize)
        ensures
            b == self@.bit_width,
    {
        self.bit_width
    }

    /// The size at which the hot segment is sealed.
    pub fn max_hot(&self) -> (n: usize)
        ensures
            n == self@.max_hot,
    {
        self.max_hot
    }

    /// Whether `id` is live.
    pub fn contains(&self, id: u64) -> (r: bool)
        ensures
            r == self@.ids().contains(id),
    {
        self.owner.contains_key(&id)
    }

    /// Whether the segment that owns `id` exists, where `id` is live. A manifest may
    /// name one that does not.
    pub fn routes(&self, id: u64) -> (r: bool)
        ensures
            r == self@.routes(id),
    {
        match self.owner.get(&id) {
            Some(Owner::Sealed(s)) => *s < self.sealed.len(),
            _ => true,
        }
    }

    /// Whether a fresh hot segment can be made for these dimensions. A manifest may
    /// give dimensions for which none can.
    pub fn sealable(&self) -> (r: bool)
        ensures
            r == self@.sealable(),
    {
        2 <= self.bit_width && self.bit_width <= 4 && self.dim != 0 && self.dim % 8 == 0
            && self.dim <= 16384
    }
}

} // verus!
