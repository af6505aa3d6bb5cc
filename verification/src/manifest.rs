//! The manifest of a committed generation: which files make up the index and who
//! owns which id.
use vstd::prelude::*;

use crate::idmap::index_ids;
use crate::state::{IndexState, Owner};

verus! {

/// The manifest shape that this library writes, and the only one that it opens.
pub const MANIFEST_FORMAT: u32 = 2;

/// One generation's manifest.
#[derive(Debug)]
pub struct Manifest {
    /// The manifest shape.
    pub format: u32,
    /// The dimension of every vector.
    pub dim: usize,
    /// The number of bits that encode one coordinate.
    pub bit_width: usize,
    /// The size at which the hot segment is sealed.
    pub max_hot: usize,
    /// The number of sealed segments.
    pub n_sealed: usize,
    /// The file of each sealed segment.
    pub seg_files: Vec<String>,
    /// The file of the hot-segment snapshot.
    pub hot_file: String,
    /// The live ids.
    pub owner_ids: Vec<u64>,
    /// For each live id, -1 where the hot segment owns it, else the index of the
    /// sealed segment that does.
    pub owner_seg: Vec<i64>,
    /// The ids that were deleted from sealed segments.
    pub tombstone_ids: Vec<u64>,
    /// For each of them, the index of the sealed segment.
    pub tombstone_seg: Vec<usize>,
}

/// A manifest as a mathematical value.
#[verifier::ext_equal]
pub struct ManifestState {
    /// See `Manifest::format`.
    pub format: u32,
    /// See `Manifest::dim`.
    pub dim: usize,
    /// See `Manifest::bit_width`.
    pub bit_width: usize,
    /// See `Manifest::max_hot`.
    pub max_hot: usize,
    /// See `Manifest::n_sealed`.
    pub n_sealed: usize,
    /// See `Manifest::seg_files`.
    pub seg_files: Seq<Seq<char>>,
    /// See `Manifest::hot_file`.
    pub hot_file: Seq<char>,
    /// See `Manifest::owner_ids`.
    pub owner_ids: Seq<u64>,
    /// See `Manifest::owner_seg`.
    pub owner_seg: Seq<i64>,
    /// See `Manifest::tombstone_ids`.
    pub tombstone_ids: Seq<u64>,
    /// See `Manifest::tombstone_seg`.
    pub tombstone_seg: Seq<usize>,
}

impl View for Manifest {
    type V = ManifestState;

    open spec fn view(&self) -> ManifestState {
        ManifestState {
            format: self.format,
            dim: self.dim,
            bit_width: self.bit_width,
            max_hot: self.max_hot,
            n_sealed: self.n_sealed,
            seg_files: self.seg_files@.map_values(|name: String| name@),
            hot_file: self.hot_file@,
            owner_ids: self.owner_ids@,
            owner_seg: self.owner_seg@,
            tombstone_ids: self.tombstone_ids@,
            tombstone_seg: self.tombstone_seg@,
        }
    }
}

/// The number that stands for an owner in a manifest.
pub open spec fn owner_code(owner: Owner) -> i64 {
    match owner {
        Owner::Hot => -1i64,
        Owner::Sealed(s) => s as i64,
    }
}

/// The owner that a number in a manifest stands for.
pub open spec fn coded_owner(code: i64) -> Owner {
    if code < 0 {
        Owner::Hot
    } else {
        Owner::Sealed(code as usize)
    }
}

/// The smaller of two lengths: two lists side by side end with the shorter one.
pub open spec fn common_len(a: nat, b: nat) -> nat {
    if a < b {
        a
    } else {
        b
    }
}

/// The owners that the first `n` entries of two parallel lists give. A later entry
/// for an id replaces an earlier one.
pub open spec fn listed_owners(ids: Seq<u64>, codes: Seq<i64>, n: nat) -> Map<u64, Owner>
    decreases n,
{
    if n == 0 {
        Map::empty()
    } else {
        listed_owners(ids, codes, (n - 1) as nat).insert(ids[n - 1], coded_owner(codes[n - 1]))
    }
}

/// The ids that the first `n` entries of two parallel lists give to the hot segment.
pub open spec fn listed_hot(ids: Seq<u64>, codes: Seq<i64>, n: nat) -> Set<u64> {
    Set::new(|id: u64| exists|i: int| 0 <= i < n && #[trigger] ids[i] == id && codes[i] < 0)
}

/// The pairs of the first `n` entries of two parallel lists.
pub open spec fn listed_pairs(ids: Seq<u64>, segs: Seq<usize>, n: nat) -> Set<(u64, usize)> {
    Set::new(
        |pair: (u64, usize)|
            exists|i: int| 0 <= i < n && #[trigger] ids[i] == pair.0 && segs[i] == pair.1,
    )
}

impl ManifestState {
    /// The owners that the manifest gives.
    pub open spec fn owner(self) -> Map<u64, Owner> {
        listed_owners(
            self.owner_ids,
            self.owner_seg,
            common_len(self.owner_ids.len(), self.owner_seg.len()),
        )
    }

    /// The ids that the manifest gives to the hot segment.
    pub open spec fn hot_ids(self) -> Set<u64> {
        listed_hot(
            self.owner_ids,
            self.owner_seg,
            common_len(self.owner_ids.len(), self.owner_seg.len()),
        )
    }

    /// The deletes that the manifest records.
    pub open spec fn tombstones(self) -> Set<(u64, usize)> {
        listed_pairs(
            self.tombstone_ids,
            self.tombstone_seg,
            common_len(self.tombstone_ids.len(), self.tombstone_seg.len()),
        )
    }

    /// The manifest describes `state`, with the hot segment in `hot_file`. The ids
    /// and the deletes may be listed in any order, each once.
    pub open spec fn describes(self, state: IndexState, hot_file: Seq<char>) -> bool {
        &&& self.format == MANIFEST_FORMAT
        &&& self.dim == state.dim
        &&& self.bit_width == state.bit_width
        &&& self.max_hot == state.max_hot
        &&& self.n_sealed == state.sealed.len()
        &&& self.seg_files.len() == state.seg_files.len()
        &&& forall|i: int|
            0 <= i < state.seg_files.len() ==> #[trigger] state.seg_files[i] == Some(
                self.seg_files[i],
            )
        &&& self.hot_file == hot_file
        &&& self.owner_ids.no_duplicates()
        &&& self.owner_ids.to_set() == state.owner.dom()
        &&& self.owner_seg.len() == self.owner_ids.len()
        &&& forall|i: int|
            0 <= i < self.owner_ids.len() ==> #[trigger] self.owner_seg[i] == owner_code(
                state.owner[self.owner_ids[i]],
            )
        &&& self.tombstone_seg.len() == self.tombstone_ids.len()
        &&& self.tombstone_pairs().no_duplicates()
        &&& self.tombstone_pairs().to_set() == state.tombstones
    }

    /// The recorded deletes, in the order in which the manifest lists them.
    pub open spec fn tombstone_pairs(self) -> Seq<(u64, usize)> {
        Seq::new(
            common_len(self.tombstone_ids.len(), self.tombstone_seg.len()),
            |i: int| (self.tombstone_ids[i], self.tombstone_seg[i]),
        )
    }
}

/// Every index of a sealed segment in use can be written as a manifest number.
pub open spec fn codable(owner: Map<u64, Owner>) -> bool {
    forall|id: u64| #[trigger] owner.contains_key(id) ==> match owner[id] {
        Owner::Hot => true,
        Owner::Sealed(s) => s <= i64::MAX,
    }
}

proof fn lemma_listed_owners(ids: Seq<u64>, codes: Seq<i64>, n: nat)
    requires
        n <= ids.len(),
        ids.no_duplicates(),
    ensures
        forall|id: u64| #[trigger]
            listed_owners(ids, codes, n).contains_key(id) <==> ids.take(n as int).contains(id),
        forall|i: int|
            0 <= i < n ==> listed_owners(ids, codes, n)[#[trigger] ids[i]] == coded_owner(codes[i]),
    decreases n,
{
    if n > 0 {
        let m = (n - 1) as nat;
        lemma_listed_owners(ids, codes, m);
        assert(ids.take(n as int) =~= ids.take(m as int).push(ids[n - 1]));
        assert forall|id: u64| #[trigger]
            listed_owners(ids, codes, n).contains_key(id) <==> ids.take(n as int).contains(id) by {
            if ids.take(m as int).contains(id) {
                let i = ids.take(m as int).index_of(id);
                assert(ids.take(n as int)[i] == id);
            }
            assert(ids.take(n as int)[n - 1] == ids[n - 1]);
        }
    }
}

/// A manifest gives back the owners, the hot ids and the deletes of the index that
/// it describes.
pub proof fn law_manifest_gives_back_the_bookkeeping(
    manifest: ManifestState,
    state: IndexState,
    hot_file: Seq<char>,
)
    requires
        manifest.describes(state, hot_file),
        codable(state.owner),
    ensures
        manifest.owner() == state.owner,
        manifest.hot_ids() == state.owned(Owner::Hot),
        manifest.tombstones() == state.tombstones,
{
    let (ids, codes) = (manifest.owner_ids, manifest.owner_seg);
    let n = ids.len();
    lemma_listed_owners(ids, codes, n);
    assert(ids.take(n as int) =~= ids);
    assert forall|id: u64| manifest.owner().contains_key(id) <==> state.owner.contains_key(id) by {
        assert(ids.to_set().contains(id) <==> ids.contains(id));
    }
    assert forall|i: int| 0 <= i < n implies coded_owner(codes[i]) == state.owner[#[trigger] ids[i]]
        && state.owner.contains_key(ids[i]) by {
        assert(ids.to_set().contains(ids[i]));
        assert(codes[i] == owner_code(state.owner[ids[i]]));
    }
    assert forall|id: u64| manifest.owner().contains_key(id) implies manifest.owner()[id]
        == state.owner[id] by {
        let i = ids.index_of(id);
        assert(ids[i] == id);
    }
    assert(manifest.owner() =~= state.owner);
    assert forall|id: u64| manifest.hot_ids().contains(id) <==> state.owned(Owner::Hot).contains(
        id,
    ) by {
        if state.owned(Owner::Hot).contains(id) {
            assert(ids.to_set().contains(id));
            let i = ids.index_of(id);
            assert(ids[i] == id && codes[i] < 0);
        }
    }
    assert(manifest.hot_ids() =~= state.owned(Owner::Hot));
    let pairs = manifest.tombstone_pairs();
    assert forall|pair: (u64, usize)| manifest.tombstones().contains(pair)
        <==> state.tombstones.contains(pair) by {
        if manifest.tombstones().contains(pair) {
            let i = choose|i: int|
                0 <= i < manifest.tombstone_ids.len() && #[trigger] manifest.tombstone_ids[i]
                    == pair.0 && manifest.tombstone_seg[i] == pair.1;
            assert(pairs[i] == pair);
            assert(pairs.to_set().contains(pair));
        }
        if state.tombstones.contains(pair) {
            assert(pairs.to_set().contains(pair));
            let i = pairs.index_of(pair);
            assert(manifest.tombstone_ids[i] == pair.0);
        }
    }
    assert(manifest.tombstones() =~= state.tombstones);
}

/// The recorded deletes are distinct, name sealed segments that exist, and stand apart
/// from the owners: an id that was deleted from a segment is never owned by that
/// segment again, even when it is added anew.
pub proof fn law_deletes_stand_apart_from_owners(
    manifest: ManifestState,
    state: IndexState,
    hot_file: Seq<char>,
    i: int,
)
    requires
        state.consistent(),
        state.sealed.len() <= i64::MAX,
        manifest.describes(state, hot_file),
        0 <= i < manifest.tombstone_ids.len(),
    ensures
        manifest.tombstone_seg.len() == manifest.tombstone_ids.len(),
        manifest.tombstone_seg[i] < manifest.n_sealed,
        forall|j: int|
            0 <= j < manifest.tombstone_ids.len() && j != i ==> #[trigger]
                manifest.tombstone_ids[j] != manifest.tombstone_ids[i]
                || manifest.tombstone_seg[j] != manifest.tombstone_seg[i],
        forall|j: int|
            0 <= j < manifest.owner_ids.len() ==> #[trigger] manifest.owner_ids[j]
                != manifest.tombstone_ids[i] || manifest.owner_seg[j] != manifest.tombstone_seg[i],
{
    let pairs = manifest.tombstone_pairs();
    let (id, s) = pairs[i];
    assert(pairs.to_set().contains(pairs[i]));
    assert(state.tombstones.contains((id, s)));
    assert(!index_ids(state.sealed[s as int]).contains(id));
    assert forall|j: int|
        0 <= j < manifest.tombstone_ids.len() && j != i implies #[trigger]
    manifest.tombstone_ids[j] != manifest.tombstone_ids[i] || manifest.tombstone_seg[j]
        != manifest.tombstone_seg[i] by {
        assert(pairs[j] != pairs[i]);
    }
    assert forall|j: int| 0 <= j < manifest.owner_ids.len() implies #[trigger]
    manifest.owner_ids[j] != manifest.tombstone_ids[i] || manifest.owner_seg[j]
        != manifest.tombstone_seg[i] by {
        let owned = manifest.owner_ids[j];
        assert(manifest.owner_ids.to_set().contains(owned));
        assert(manifest.owner_seg[j] == owner_code(state.owner[owned]));
        assert(state.routes(owned));
        assert(!state.owned(Owner::Sealed(s)).contains(id));
    }
}

/// What a manifest says of the index that it describes: its numbers, the file of each
/// sealed segment and of the hot one; each live id exactly once, with -1 where the hot segment
/// owns it and else the index of the sealed segment that does; and each recorded delete
/// exactly once.
pub proof fn law_what_a_manifest_says(
    manifest: ManifestState,
    state: IndexState,
    hot_file: Seq<char>,
)
    requires
        manifest.describes(state, hot_file),
        codable(state.owner),
    ensures
        manifest.format == 2,
        manifest.dim == state.dim,
        manifest.bit_width == state.bit_width,
        manifest.max_hot == state.max_hot,
        manifest.n_sealed == state.sealed.len(),
        manifest.hot_file == hot_file,
        manifest.seg_files.len() == state.seg_files.len(),
        forall|i: int|
            0 <= i < manifest.seg_files.len() ==> state.seg_files[i] == Some(
                #[trigger] manifest.seg_files[i],
            ),
        manifest.owner_seg.len() == manifest.owner_ids.len() == state.owner.dom().len(),
        forall|i: int, j: int|
            0 <= i < j < manifest.owner_ids.len() ==> manifest.owner_ids[i]
                != manifest.owner_ids[j],
        forall|i: int|
            0 <= i < manifest.owner_ids.len() ==> {
                &&& state.owner.contains_key(#[trigger] manifest.owner_ids[i])
                &&& match state.owner[manifest.owner_ids[i]] {
                    Owner::Hot => manifest.owner_seg[i] == -1,
                    Owner::Sealed(s) => manifest.owner_seg[i] == s,
                }
            },
        forall|id: u64| #[trigger]
            state.owner.contains_key(id) ==> exists|i: int|
                0 <= i < manifest.owner_ids.len() && #[trigger] manifest.owner_ids[i] == id,
        manifest.tombstone_seg.len() == manifest.tombstone_ids.len() == state.tombstones.len(),
        forall|i: int|
            0 <= i < manifest.tombstone_ids.len() ==> state.tombstones.contains(
                (#[trigger] manifest.tombstone_ids[i], manifest.tombstone_seg[i]),
            ),
        forall|id: u64, s: usize| #[trigger]
            state.tombstones.contains((id, s)) ==> exists|i: int|
                0 <= i < manifest.tombstone_ids.len() && #[trigger] manifest.tombstone_ids[i] == id
                    && manifest.tombstone_seg[i] == s,
{
    let (ids, pairs) = (manifest.owner_ids, manifest.tombstone_pairs());
    ids.unique_seq_to_set();
    pairs.unique_seq_to_set();
    assert forall|i: int| 0 <= i < manifest.seg_files.len() implies state.seg_files[i] == Some(
        #[trigger] manifest.seg_files[i],
    ) by {
        assert(state.seg_files[i] == Some(manifest.seg_files[i]));
    }
    assert forall|i: int| 0 <= i < ids.len() implies {
        &&& state.owner.contains_key(#[trigger] ids[i])
        &&& match state.owner[ids[i]] {
            Owner::Hot => manifest.owner_seg[i] == -1,
            Owner::Sealed(s) => manifest.owner_seg[i] == s,
        }
    } by {
        assert(ids.to_set().contains(ids[i]));
        assert(manifest.owner_seg[i] == owner_code(state.owner[ids[i]]));
    }
    assert forall|id: u64| #[trigger] state.owner.contains_key(id) implies exists|i: int|
        0 <= i < ids.len() && #[trigger] ids[i] == id by {
        assert(ids.to_set().contains(id));
        assert(ids[ids.index_of(id)] == id);
    }
    assert forall|i: int| 0 <= i < manifest.tombstone_ids.len() implies state.tombstones.contains(
        (#[trigger] manifest.tombstone_ids[i], manifest.tombstone_seg[i]),
    ) by {
        assert(pairs.to_set().contains(pairs[i]));
    }
    assert forall|id: u64, s: usize| #[trigger] state.tombstones.contains((id, s)) implies exists|
        i: int,
    |
        0 <= i < manifest.tombstone_ids.len() && #[trigger] manifest.tombstone_ids[i] == id
            && manifest.tombstone_seg[i] == s by {
        assert(pairs.to_set().contains((id, s)));
        let i = pairs.index_of((id, s));
        assert(manifest.tombstone_ids[i] == id);
    }
}

/// What the lists of a manifest give. Two lists side by side end with the shorter one. An id
/// is live where it is listed, and its last entry tells its owner: the hot segment where the
/// number is negative, else the sealed segment of that index. The hot ids are all that are
/// listed with a negative number, and the deletes are the pairs that are listed.
pub proof fn law_what_the_lists_of_a_manifest_give(manifest: ManifestState)
    ensures
        forall|id: u64| #[trigger]
            manifest.owner().contains_key(id) <==> exists|i: int|
                0 <= i < manifest.owner_ids.len() && i < manifest.owner_seg.len()
                    && #[trigger] manifest.owner_ids[i] == id,
        forall|i: int|
            0 <= i < manifest.owner_ids.len() && i < manifest.owner_seg.len() && (forall|j: int|
                i < j < manifest.owner_ids.len() && j < manifest.owner_seg.len()
                    ==> #[trigger] manifest.owner_ids[j] != manifest.owner_ids[i])
                ==> manifest.owner()[#[trigger] manifest.owner_ids[i]]
                == if manifest.owner_seg[i] < 0 {
                Owner::Hot
            } else {
                Owner::Sealed(manifest.owner_seg[i] as usize)
            },
        forall|id: u64| #[trigger]
            manifest.hot_ids().contains(id) <==> exists|i: int|
                0 <= i < manifest.owner_ids.len() && i < manifest.owner_seg.len()
                    && #[trigger] manifest.owner_ids[i] == id && manifest.owner_seg[i] < 0,
        forall|id: u64, s: usize| #[trigger]
            manifest.tombstones().contains((id, s)) <==> exists|i: int|
                0 <= i < manifest.tombstone_ids.len() && i < manifest.tombstone_seg.len()
                    && #[trigger] manifest.tombstone_ids[i] == id && manifest.tombstone_seg[i]
                    == s,
{
    let n = common_len(manifest.owner_ids.len(), manifest.owner_seg.len());
    lemma_last_entry(manifest.owner_ids, manifest.owner_seg, n);
}

proof fn lemma_last_entry(ids: Seq<u64>, codes: Seq<i64>, n: nat)
    requires
        n <= ids.len(),
    ensures
        forall|id: u64| #[trigger]
            listed_owners(ids, codes, n).contains_key(id) <==> exists|i: int|
                0 <= i < n && #[trigger] ids[i] == id,
        forall|i: int|
            0 <= i < n && (forall|j: int| i < j < n ==> #[trigger] ids[j] != ids[i])
                ==> listed_owners(ids, codes, n)[#[trigger] ids[i]] == if codes[i] < 0 {
                Owner::Hot
            } else {
                Owner::Sealed(codes[i] as usize)
            },
    decreases n,
{
    if n > 0 {
        let m = (n - 1) as nat;
        lemma_last_entry(ids, codes, m);
        assert forall|id: u64| #[trigger]
            listed_owners(ids, codes, n).contains_key(id) <==> exists|i: int|
                0 <= i < n && #[trigger] ids[i] == id by {
            if listed_owners(ids, codes, m).contains_key(id) {
                let i = choose|i: int| 0 <= i < m && #[trigger] ids[i] == id;
                assert(0 <= i < n && ids[i] == id);
            }
            assert(ids[m as int] == ids[n - 1]);
        }
        assert forall|i: int|
            0 <= i < n && (forall|j: int| i < j < n ==> #[trigger] ids[j] != ids[i]) implies
        listed_owners(ids, codes, n)[#[trigger] ids[i]] == (if codes[i] < 0 {
            Owner::Hot
        } else {
            Owner::Sealed(codes[i] as usize)
        }) by {
            if i < m {
                assert(ids[m as int] != ids[i]);
            }
        }
    }
}

/// What is stated of a manifest is stated of its own fields, each as it is.
pub proof fn law_a_manifest_is_seen_as_it_is(manifest: Manifest)
    ensures
        manifest@.format == manifest.format,
        manifest@.dim == manifest.dim,
        manifest@.bit_width == manifest.bit_width,
        manifest@.max_hot == manifest.max_hot,
        manifest@.n_sealed == manifest.n_sealed,
        manifest@.hot_file == manifest.hot_file@,
        manifest@.owner_ids == manifest.owner_ids@,
        manifest@.owner_seg == manifest.owner_seg@,
        manifest@.tombstone_ids == manifest.tombstone_ids@,
        manifest@.tombstone_seg == manifest.tombstone_seg@,
        manifest@.seg_files.len() == manifest.seg_files@.len(),
        forall|i: int|
            0 <= i < manifest.seg_files@.len() ==> #[trigger] manifest@.seg_files[i]
                == manifest.seg_files@[i]@,
{
}

} // verus!
