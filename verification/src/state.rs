//! The model of a segmented index: what it holds, what keeps it sound, and what
//! each operation does to it.
use turbovec::IdMapIndex;
use vstd::prelude::*;

use crate::idmap::{construct_error, index_ids, index_shape, index_vectors};

verus! {

/// Which segment owns an external id.
#[derive(Clone, Copy, Debug, PartialEq, Eq, Structural)]
pub enum Owner {
    /// The writable hot segment.
    Hot,
    /// The sealed segment at this index.
    Sealed(usize),
}

/// Why a batch of vectors was not added; `E` is how the hot segment's encoder
/// reports a failure.
#[derive(Debug)]
pub enum AddError<E> {
    /// The flat buffer does not split into whole vectors.
    VectorBufferNotMultipleOfDim {
        /// The length of the buffer.
        vectors_len: usize,
        /// The dimension of the index.
        dim: usize,
    },
    /// There is not one id for each vector.
    IdsCountMismatch {
        /// The number of vectors.
        expected: usize,
        /// The number of ids.
        got: usize,
    },
    /// The id is already in the index, or earlier in the batch.
    IdAlreadyPresent(u64),
    /// The hot segment rejected the batch.
    Segment(E),
}

/// Whether the id at position `i` of a batch is already owned, or stands earlier
/// in the batch.
pub open spec fn is_taken(owner: Map<u64, Owner>, ids: Seq<u64>, i: int) -> bool {
    &&& 0 <= i < ids.len()
    &&& owner.contains_key(ids[i]) || ids.take(i).contains(ids[i])
}

/// Whether position `i` is the first of the batch whose id is taken.
pub open spec fn is_first_taken(owner: Map<u64, Owner>, ids: Seq<u64>, i: int) -> bool {
    &&& is_taken(owner, ids, i)
    &&& forall|j: int| 0 <= j < i ==> !is_taken(owner, ids, j)
}

/// The owners with all of `ids` given to `to`.
pub open spec fn repointed(owner: Map<u64, Owner>, ids: Set<u64>, to: Owner) -> Map<u64, Owner> {
    owner.union_prefer_right(Map::new(|id: u64| ids.contains(id), |id: u64| to))
}

/// The allowed ids that `tag` owns, each once, in the order in which they are
/// first listed.
pub open spec fn routed(allowed: Seq<u64>, owner: Map<u64, Owner>, tag: Owner) -> Seq<u64>
    decreases allowed.len(),
{
    if allowed.len() == 0 {
        Seq::empty()
    } else {
        let front = allowed.drop_last();
        let id = allowed.last();
        let before = routed(front, owner, tag);
        if !front.contains(id) && owner.contains_key(id) && owner[id] == tag {
            before.push(id)
        } else {
            before
        }
    }
}

/// A segmented index as a mathematical value.
#[verifier::ext_equal]
pub struct IndexState {
    /// The dimension of every vector.
    pub dim: usize,
    /// The number of bits that encode one coordinate.
    pub bit_width: usize,
    /// The size at which the hot segment is sealed.
    pub max_hot: usize,
    /// The sealed segments, oldest first.
    pub sealed: Seq<IdMapIndex>,
    /// The writable segment.
    pub hot: IdMapIndex,
    /// The live ids, each with the segment that owns it.
    pub owner: Map<u64, Owner>,
    /// The ids that sealing the hot segment re-points.
    pub hot_ids: Set<u64>,
    /// Whether a directory backs the index.
    pub attached: bool,
    /// The last committed generation; 0 where nothing was committed.
    pub generation: u64,
    /// The file that holds each sealed segment; `None` where none does yet.
    pub seg_files: Seq<Option<Seq<char>>>,
    /// The deletes that sealed segments have seen.
    pub tombstones: Set<(u64, usize)>,
}

impl IndexState {
    /// The segments in the order in which a search asks them: the sealed ones, then
    /// the hot one.
    pub open spec fn segments(self) -> Seq<IdMapIndex> {
        self.sealed.push(self.hot)
    }

    /// The owner that stands for the segment at position `i` of `segments`.
    pub open spec fn tag(self, i: int) -> Owner {
        if i < self.sealed.len() {
            Owner::Sealed(i as usize)
        } else {
            Owner::Hot
        }
    }

    /// The segment that an owner stands for.
    pub open spec fn segment_of(self, owner: Owner) -> IdMapIndex {
        match owner {
            Owner::Hot => self.hot,
            Owner::Sealed(s) => self.sealed[s as int],
        }
    }

    /// The live ids that `tag` owns.
    pub open spec fn owned(self, tag: Owner) -> Set<u64> {
        Set::new(|id: u64| self.owner.contains_key(id) && self.owner[id] == tag)
    }

    /// The live ids.
    pub open spec fn ids(self) -> Set<u64> {
        self.owner.dom()
    }

    /// Each live id with its encoded vector.
    pub open spec fn vectors(self) -> Map<u64, Seq<u8>> {
        Map::new(
            |id: u64| self.owner.contains_key(id),
            |id: u64| index_vectors(self.segment_of(self.owner[id]))[id],
        )
    }

    /// Where `id` is live, the segment that owns it exists.
    pub open spec fn routes(self, id: u64) -> bool {
        self.owner.contains_key(id) ==> match self.owner[id] {
            Owner::Hot => true,
            Owner::Sealed(s) => s < self.sealed.len(),
        }
    }

    /// A fresh hot segment can be made for these dimensions.
    pub open spec fn sealable(self) -> bool {
        construct_error(self.dim, self.bit_width) is None
    }

    /// There is one file entry for each sealed segment.
    pub open spec fn well_formed(self) -> bool {
        &&& self.seg_files.len() == self.sealed.len()
        &&& self.sealed.len() <= usize::MAX
        &&& self.owner.dom().finite()
    }

    /// The bookkeeping agrees with the segments: each segment has the shape of the index
    /// and holds exactly the ids that it owns, none that was deleted from it.
    pub open spec fn consistent(self) -> bool {
        &&& self.well_formed()
        &&& self.sealable()
        &&& forall|id: u64| #[trigger] self.routes(id)
        &&& index_shape(self.hot) == (self.dim, self.bit_width)
        &&& forall|s: usize|
            s < self.sealed.len() ==> index_shape(#[trigger] self.sealed[s as int]) == (
                self.dim,
                self.bit_width,
            )
        &&& index_ids(self.hot) == self.owned(Owner::Hot)
        &&& self.hot_ids == self.owned(Owner::Hot)
        &&& forall|s: usize|
            s < self.sealed.len() ==> index_ids(#[trigger] self.sealed[s as int]) == self.owned(
                Owner::Sealed(s),
            )
        &&& forall|id: u64, s: usize|
            #[trigger] self.tombstones.contains((id, s)) ==> s < self.sealed.len()
                && !index_ids(self.sealed[s as int]).contains(id)
    }

    /// The index has just been created: it holds nothing and is attached to nothing. A
    /// cap of 0 for the hot segment counts as 1.
    pub open spec fn is_fresh(self, dim: usize, bit_width: usize, max_hot: usize) -> bool {
        &&& self.consistent()
        &&& index_shape(self.hot) == (dim, bit_width)
        &&& index_ids(self.hot) == Set::<u64>::empty()
        &&& self == IndexState {
            dim,
            bit_width,
            max_hot: if max_hot == 0 {
                1
            } else {
                max_hot
            },
            sealed: Seq::empty(),
            hot: self.hot,
            owner: Map::empty(),
            hot_ids: Set::empty(),
            attached: false,
            generation: 0,
            seg_files: Seq::empty(),
            tombstones: Set::empty(),
        }
    }

    /// Why a batch of `ids` for a buffer of `vectors_len` coordinates is refused
    /// before any vector is encoded, where it is.
    pub open spec fn refusal<E>(self, vectors_len: usize, ids: Seq<u64>) -> Option<AddError<E>> {
        if self.dim == 0 || vectors_len % self.dim != 0 {
            Some(AddError::VectorBufferNotMultipleOfDim { vectors_len, dim: self.dim })
        } else if ids.len() != vectors_len / self.dim {
            Some(
                AddError::IdsCountMismatch {
                    expected: vectors_len / self.dim,
                    got: ids.len() as usize,
                },
            )
        } else if exists|i: int| #[trigger] is_taken(self.owner, ids, i) {
            Some(
                AddError::IdAlreadyPresent(
                    ids[choose|i: int| #[trigger] is_first_taken(self.owner, ids, i)],
                ),
            )
        } else {
            None
        }
    }

    /// The index once the hot segment has become `hot` by encoding a batch of `ids`.
    pub open spec fn recorded(self, hot: IdMapIndex, ids: Seq<u64>) -> IndexState {
        IndexState {
            hot,
            owner: repointed(self.owner, ids.to_set(), Owner::Hot),
            hot_ids: self.hot_ids.union(ids.to_set()),
            ..self
        }
    }

    /// `next` is the index with its hot segment sealed, if that holds anything.
    pub open spec fn sealed_as(self, next: IndexState) -> bool {
        if index_ids(self.hot) == Set::<u64>::empty() {
            next == self
        } else {
            &&& index_shape(next.hot) == (self.dim, self.bit_width)
            &&& index_ids(next.hot) == Set::<u64>::empty()
            &&& next == IndexState {
                sealed: self.sealed.push(self.hot),
                hot: next.hot,
                owner: repointed(
                    self.owner,
                    self.hot_ids,
                    Owner::Sealed(self.sealed.len() as usize),
                ),
                hot_ids: Set::empty(),
                seg_files: self.seg_files.push(None),
                ..self
            }
        }
    }

    /// `next` is the index after it took in a batch of `ids`, which made `hot` of
    /// the hot segment: sealed, where that has grown to its cap.
    pub open spec fn added_as(self, hot: IdMapIndex, ids: Seq<u64>, next: IndexState) -> bool {
        if index_ids(hot).len() >= self.max_hot {
            self.recorded(hot, ids).sealed_as(next)
        } else {
            next == self.recorded(hot, ids)
        }
    }

    /// `next` is the index after a removal of `id`, and `removed` what it reported.
    pub open spec fn removed_as(self, id: u64, removed: bool, next: IndexState) -> bool {
        if !self.owner.contains_key(id) {
            !removed && next == self
        } else {
            match self.owner[id] {
                Owner::Hot => {
                    &&& removed == index_ids(self.hot).contains(id)
                    &&& index_shape(next.hot) == index_shape(self.hot)
                    &&& index_vectors(next.hot) == index_vectors(self.hot).remove(id)
                    &&& next == IndexState {
                        owner: self.owner.remove(id),
                        hot_ids: self.hot_ids.remove(id),
                        hot: next.hot,
                        ..self
                    }
                },
                Owner::Sealed(s) => {
                    let before = self.sealed[s as int];
                    let after = next.sealed[s as int];
                    &&& removed == index_ids(before).contains(id)
                    &&& index_shape(after) == index_shape(before)
                    &&& index_vectors(after) == index_vectors(before).remove(id)
                    &&& next == IndexState {
                        owner: self.owner.remove(id),
                        sealed: self.sealed.update(s as int, after),
                        tombstones: if removed {
                            self.tombstones.insert((id, s))
                        } else {
                            self.tombstones
                        },
                        ..self
                    }
                },
            }
        }
    }
}

} // verus!
