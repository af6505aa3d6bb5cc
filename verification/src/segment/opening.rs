//! Opening the last committed generation of a store, one file at a time.
//!
//! The caller reads the manifest that the pointer names and hands it over, then
//! reads each file that is asked for and hands over its bytes.
use std::collections::{HashMap, HashSet};
use turbovec::IdMapIndex;
use vstd::prelude::*;

use crate::idmap::{
    Content, image_content, index_content, index_from_image, index_remove, index_shape,
    index_vectors,
};
use crate::manifest::{
    MANIFEST_FORMAT, Manifest, ManifestState, common_len, listed_hot, listed_owners, listed_pairs,
};
use crate::names::{generation_of, manifest_generation};
use crate::segment::{SegmentedIndex, names_of};
use crate::state::{IndexState, Owner};
use crate::tombstones::Tombstones;

verus! {

broadcast use vstd::std_specs::hash::group_hash_axioms;

/// Why a manifest cannot be opened.
#[derive(Clone, Copy, Debug, PartialEq, Eq, Structural)]
pub enum OpenError {
    /// The manifest has a shape that this library does not know.
    UnsupportedFormat(u32),
    /// The manifest does not name one file for each sealed segment.
    SegFilesMismatch,
}

/// Why the bytes of a file were not taken.
#[derive(Debug)]
pub enum SupplyError {
    /// They are not the image of a vector index, for this reason.
    NotAnImage(std::io::Error),
}

/// What is wrong with a manifest, if anything is.
pub open spec fn open_error(manifest: ManifestState) -> Option<OpenError> {
    if manifest.format != MANIFEST_FORMAT {
        Some(OpenError::UnsupportedFormat(manifest.format))
    } else if manifest.seg_files.len() != manifest.n_sealed {
        Some(OpenError::SegFilesMismatch)
    } else {
        None
    }
}

/// A store being opened.
pub struct Opening {
    name: String,
    manifest: Manifest,
    sealed: Vec<IdMapIndex>,
    hot: Option<IdMapIndex>,
}

/// A store being opened, as a mathematical value.
#[verifier::ext_equal]
pub struct OpeningState {
    /// The name of the manifest.
    pub name: Seq<char>,
    /// The manifest.
    pub manifest: ManifestState,
    /// The sealed segments that have been read, in order.
    pub sealed: Seq<IdMapIndex>,
    /// The hot segment, once it has been read.
    pub hot: Option<IdMapIndex>,
}

impl View for Opening {
    type V = OpeningState;

    closed spec fn view(&self) -> OpeningState {
        OpeningState {
            name: self.name@,
            manifest: self.manifest@,
            sealed: self.sealed@,
            hot: self.hot,
        }
    }
}

impl OpeningState {
    /// The segments are read in order, the hot one last.
    pub open spec fn well_formed(self) -> bool {
        &&& self.sealed.len() <= self.manifest.seg_files.len()
        &&& self.hot is Some ==> self.sealed.len() == self.manifest.seg_files.len()
    }

    /// The file to be read next; `None` once all have been.
    pub open spec fn wanted(self) -> Option<Seq<char>> {
        if self.sealed.len() < self.manifest.seg_files.len() {
            Some(self.manifest.seg_files[self.sealed.len() as int])
        } else if self.hot is None {
            Some(self.manifest.hot_file)
        } else {
            None
        }
    }

    /// The opening once the file that was wanted has given `segment`.
    pub open spec fn with(self, segment: IdMapIndex) -> OpeningState {
        if self.sealed.len() < self.manifest.seg_files.len() {
            OpeningState { sealed: self.sealed.push(segment), ..self }
        } else {
            OpeningState { hot: Some(segment), ..self }
        }
    }

    /// `state` is the index that the files give: a segment's file still holds what
    /// was deleted from it later, so the recorded deletes are applied again.
    pub open spec fn opens_as(self, state: IndexState) -> bool {
        &&& state.sealed.len() == self.sealed.len()
        &&& forall|s: usize|
            s < state.sealed.len() ==> index_content(#[trigger] state.sealed[s as int]) == pruned(
                index_content(self.sealed[s as int]),
                self.manifest.tombstones(),
                s,
            )
        &&& state == IndexState {
            dim: self.manifest.dim,
            bit_width: self.manifest.bit_width,
            max_hot: self.manifest.max_hot,
            sealed: state.sealed,
            hot: self.hot->0,
            owner: self.manifest.owner(),
            hot_ids: self.manifest.hot_ids(),
            attached: true,
            generation: generation_of(self.name),
            seg_files: self.manifest.seg_files.map_values(|name: Seq<char>| Some(name)),
            tombstones: self.manifest.tombstones(),
        }
    }
}

/// What sealed segment `s` holds without the vectors that were deleted from it.
pub open spec fn pruned(content: Content, tombstones: Set<(u64, usize)>, s: usize) -> Content {
    (content.0, content.1.remove_keys(Set::new(|id: u64| tombstones.contains((id, s)))))
}

impl SegmentedIndex {
    /// Begin to open the store whose active manifest has this name and contents.
    pub fn open(name: &str, manifest: Manifest) -> (r: Result<Opening, OpenError>)
        ensures
            match r {
                Ok(opening) => {
                    &&& open_error(manifest@) is None
                    &&& opening@.well_formed()
                    &&& opening@ == (OpeningState {
                        name: name@,
                        manifest: manifest@,
                        sealed: Seq::empty(),
                        hot: None,
                    })
                },
                Err(e) => open_error(manifest@) == Some(e),
            },
    {
        if manifest.format != MANIFEST_FORMAT {
            return Err(OpenError::UnsupportedFormat(manifest.format));
        }
        if manifest.seg_files.len() != manifest.n_sealed {
            return Err(OpenError::SegFilesMismatch);
        }
        Ok(Opening { name: name.to_owned(), manifest, sealed: Vec::new(), hot: None })
    }

    /// Another name for `open`.
    pub fn load(name: &str, manifest: Manifest) -> (r: Result<Opening, OpenError>)
        ensures
            match r {
                Ok(opening) => {
                    &&& open_error(manifest@) is None
                    &&& opening@.well_formed()
                    &&& opening@ == (OpeningState {
                        name: name@,
                        manifest: manifest@,
                        sealed: Seq::empty(),
                        hot: None,
                    })
                },
                Err(e) => open_error(manifest@) == Some(e),
            },
    {
        Self::open(name, manifest)
    }
}

impl Opening {
    /// The name of the file to be read next; `None` once all have been.
    pub fn next_file(&self) -> (r: Option<String>)
        ensures
            match r {
                Some(name) => self@.wanted() == Some(name@),
                None => self@.wanted() is None,
            },
    {
        if self.sealed.len() < self.manifest.seg_files.len() {
            Some(self.manifest.seg_files[self.sealed.len()].clone())
        } else if self.hot.is_none() {
            Some(self.manifest.hot_file.clone())
        } else {
            None
        }
    }

    /// Hand over the bytes of the file that was asked for.
    pub fn supply(&mut self, bytes: &[u8]) -> (r: Result<(), SupplyError>)
        requires
            old(self)@.well_formed(),
            old(self)@.wanted() is Some,
        ensures
            final(self)@.well_formed(),
            match r {
                Ok(()) => exists|segment: IdMapIndex|
                    {
                        &&& image_content(bytes@) == Some(#[trigger] index_content(segment))
                        &&& final(self)@ == old(self)@.with(segment)
                    },
                Err(SupplyError::NotAnImage(_)) => {
                    &&& image_content(bytes@) is None
                    &&& final(self)@ == old(self)@
                },
            },
    {
        match index_from_image(bytes) {
            Ok(segment) => {
                let ghost given: IdMapIndex = segment;
                if self.sealed.len() < self.manifest.seg_files.len() {
                    self.sealed.push(segment);
                } else {
                    self.hot = Some(segment);
                }
                assert(self@ == old(self)@.with(given));
                Ok(())
            },
            Err(e) => Err(SupplyError::NotAnImage(e)),
        }
    }

    /// The index, once every file has been handed over. It stays attached to the
    /// store.
    pub fn finish(self) -> (index: SegmentedIndex)
        requires
            self@.well_formed(),
            self@.wanted() is None,
        ensures
            self@.opens_as(index@),
            index@.well_formed(),
    {
        let ghost opening: OpeningState = self@;
        let Opening { name, manifest, sealed, hot } = self;
        let mut sealed: Vec<IdMapIndex> = sealed;
        let hot: IdMapIndex = hot.unwrap();
        let (owner, hot_ids): (HashMap<u64, Owner>, HashSet<u64>) = read_owners(&manifest);
        let tombstones: Tombstones = read_tombstones(&manifest);
        let generation: u64 = manifest_generation(&name);
        prune(&mut sealed, &tombstones);
        let seg_files: Vec<Option<String>> = read_files(&manifest);
        let index: SegmentedIndex = SegmentedIndex {
            dim: manifest.dim,
            bit_width: manifest.bit_width,
            max_hot: manifest.max_hot,
            sealed,
            hot,
            owner,
            hot_ids,
            attached: true,
            generation,
            seg_files,
            tombstones,
        };
        assert(index.sealed.len() == index.sealed@.len());
        index
    }
}

/// The owners and the hot ids that a manifest gives.
fn read_owners(manifest: &Manifest) -> (r: (HashMap<u64, Owner>, HashSet<u64>))
    ensures
        r.0@ == manifest@.owner(),
        r.1@ == manifest@.hot_ids(),
{
    let mut owner: HashMap<u64, Owner> = HashMap::with_capacity(manifest.owner_ids.len());
    let mut hot_ids: HashSet<u64> = HashSet::new();
    let mut i: usize = 0;
    assert(hot_ids@ =~= listed_hot(manifest.owner_ids@, manifest.owner_seg@, 0));
    while i < manifest.owner_ids.len() && i < manifest.owner_seg.len()
        invariant
            i <= common_len(manifest.owner_ids@.len(), manifest.owner_seg@.len()),
            owner@ == listed_owners(manifest.owner_ids@, manifest.owner_seg@, i as nat),
            hot_ids@ == listed_hot(manifest.owner_ids@, manifest.owner_seg@, i as nat),
        decreases manifest.owner_ids.len() - i,
    {
        let id: u64 = manifest.owner_ids[i];
        let seg: i64 = manifest.owner_seg[i];
        let ghost before: Set<u64> = hot_ids@;
        if seg < 0 {
            owner.insert(id, Owner::Hot);
            hot_ids.insert(id);
        } else {
            owner.insert(id, Owner::Sealed(seg as usize));
        }
        proof {
            let (ids, codes) = (manifest.owner_ids@, manifest.owner_seg@);
            assert forall|x: u64| listed_hot(ids, codes, (i + 1) as nat).contains(x)
                <==> before.contains(x) || (x == id && seg < 0) by {
                if x == id && seg < 0 {
                    assert(ids[i as int] == x);
                }
            }
            assert(hot_ids@ =~= listed_hot(ids, codes, (i + 1) as nat));
        }
        i += 1;
    }
    (owner, hot_ids)
}

/// The deletes that a manifest records.
fn read_tombstones(manifest: &Manifest) -> (t: Tombstones)
    ensures
        t@ == manifest@.tombstones(),
{
    let mut t: Tombstones = Tombstones::new();
    let mut i: usize = 0;
    assert(t@ =~= listed_pairs(manifest.tombstone_ids@, manifest.tombstone_seg@, 0));
    while i < manifest.tombstone_ids.len() && i < manifest.tombstone_seg.len()
        invariant
            i <= common_len(manifest.tombstone_ids@.len(), manifest.tombstone_seg@.len()),
            t@ == listed_pairs(manifest.tombstone_ids@, manifest.tombstone_seg@, i as nat),
        decreases manifest.tombstone_ids.len() - i,
    {
        let ghost before: Set<(u64, usize)> = t@;
        t.insert(manifest.tombstone_ids[i], manifest.tombstone_seg[i]);
        proof {
            let (ids, segs) = (manifest.tombstone_ids@, manifest.tombstone_seg@);
            assert forall|x: (u64, usize)| listed_pairs(ids, segs, (i + 1) as nat).contains(x)
                <==> before.contains(x) || x == (ids[i as int], segs[i as int]) by {
                if x == (ids[i as int], segs[i as int]) {
                    assert(ids[i as int] == x.0);
                }
            }
            assert(t@ =~= listed_pairs(ids, segs, (i + 1) as nat));
        }
        i += 1;
    }
    t
}

/// The file of each sealed segment that a manifest names.
fn read_files(manifest: &Manifest) -> (files: Vec<Option<String>>)
    ensures
        names_of(files@) == manifest@.seg_files.map_values(|name: Seq<char>| Some(name)),
{
    let mut files: Vec<Option<String>> = Vec::with_capacity(manifest.seg_files.len());
    let mut i: usize = 0;
    while i < manifest.seg_files.len()
        invariant
            i <= manifest.seg_files.len(),
            files.len() == i,
            forall|j: int|
                0 <= j < i ==> (#[trigger] files@[j]) is Some && files@[j]->0@
                    == manifest.seg_files@[j]@,
        decreases manifest.seg_files.len() - i,
    {
        files.push(Some(manifest.seg_files[i].clone()));
        i += 1;
    }
    assert(names_of(files@) =~= manifest@.seg_files.map_values(|name: Seq<char>| Some(name)));
    files
}

/// Apply the recorded deletes to the sealed segments. A delete from a segment that
/// does not exist is passed over.
fn prune(sealed: &mut Vec<IdMapIndex>, tombstones: &Tombstones)
    ensures
        final(sealed)@.len() == old(sealed)@.len(),
        forall|s: usize|
            s < old(sealed)@.len() ==> index_content(#[trigger] final(sealed)@[s as int]) == pruned(
                index_content(old(sealed)@[s as int]),
                tombstones@,
                s,
            ),
{
    let pairs: Vec<(u64, usize)> = tombstones.pairs();
    let ghost mut done: Set<(u64, usize)> = Set::empty();
    let mut i: usize = 0;
    assert forall|s: usize| s < sealed@.len() implies index_content(#[trigger] sealed@[s as int])
        == pruned(index_content(sealed@[s as int]), done, s) by {
        assert(pruned(index_content(sealed@[s as int]), done, s).1 =~= index_content(
            sealed@[s as int],
        ).1);
    }
    while i < pairs.len()
        invariant
            i <= pairs.len(),
            sealed@.len() == old(sealed)@.len(),
            done == pairs@.take(i as int).to_set(),
            forall|s: usize|
                s < sealed@.len() ==> index_content(#[trigger] sealed@[s as int]) == pruned(
                    index_content(old(sealed)@[s as int]),
                    done,
                    s,
                ),
        decreases pairs.len() - i,
    {
        let (id, seg): (u64, usize) = pairs[i];
        let ghost before: Seq<IdMapIndex> = sealed@;
        if seg < sealed.len() {
            index_remove(&mut sealed[seg], id);
        }
        proof {
            let more = done.insert((id, seg));
            assert forall|s: usize| s < sealed@.len() implies index_content(
                #[trigger] sealed@[s as int],
            ) == pruned(index_content(old(sealed)@[s as int]), more, s) by {
                assert(index_content(before[s as int]) == pruned(
                    index_content(old(sealed)@[s as int]),
                    done,
                    s,
                ));
                assert(index_content(sealed@[s as int]).1 =~= pruned(
                    index_content(old(sealed)@[s as int]),
                    more,
                    s,
                ).1);
            }
            assert(pairs@.take(i + 1) =~= pairs@.take(i as int).push((id, seg)));
            assert(pairs@.take(i + 1).to_set() =~= more) by {
                broadcast use vstd::seq_lib::group_seq_properties;

            }
            done = more;
        }
        i += 1;
    }
    assert(pairs@.take(i as int) =~= pairs@);
}

/// A manifest is refused only for cause: where its shape is not the one known, else where
/// it does not name one file for each sealed segment.
pub proof fn law_a_manifest_is_refused_only_for_cause(manifest: ManifestState)
    ensures
        open_error(manifest) is None <==> manifest.format == 2 && manifest.seg_files.len()
            == manifest.n_sealed,
        match open_error(manifest) {
            None => true,
            Some(OpenError::UnsupportedFormat(f)) => f == manifest.format && f != 2,
            Some(OpenError::SegFilesMismatch) => manifest.format == 2 && manifest.seg_files.len()
                != manifest.n_sealed,
        },
{
}

/// The files are asked for in the order in which the manifest names them, the hot segment's
/// last, and each is kept where it was asked for; once all are there, no more is asked for.
pub proof fn law_files_are_asked_for_in_order(opening: OpeningState, segment: IdMapIndex)
    requires
        opening.well_formed(),
    ensures
        opening.wanted() is None <==> opening.sealed.len() == opening.manifest.seg_files.len()
            && opening.hot is Some,
        opening.sealed.len() < opening.manifest.seg_files.len() ==> {
            &&& opening.wanted() == Some(opening.manifest.seg_files[opening.sealed.len() as int])
            &&& opening.with(segment).sealed == opening.sealed.push(segment)
            &&& opening.with(segment).hot == opening.hot
        },
        opening.sealed.len() == opening.manifest.seg_files.len() && opening.hot is None ==> {
            &&& opening.wanted() == Some(opening.manifest.hot_file)
            &&& opening.with(segment).sealed == opening.sealed
            &&& opening.with(segment).hot == Some(segment)
        },
        opening.with(segment).name == opening.name,
        opening.with(segment).manifest == opening.manifest,
{
}

/// Opening takes the manifest at its word: the index has its numbers, its files, its owners
/// and its deletes, stays attached, and goes on from the generation in the manifest's name.
/// Each sealed segment holds what its file holds but for what was deleted from it.
pub proof fn law_opening_takes_the_manifest_at_its_word(opening: OpeningState, state: IndexState)
    requires
        opening.well_formed(),
        opening.wanted() is None,
        opening.opens_as(state),
        opening.sealed.len() <= usize::MAX,
    ensures
        state.dim == opening.manifest.dim,
        state.bit_width == opening.manifest.bit_width,
        state.max_hot == opening.manifest.max_hot,
        state.attached,
        state.generation == generation_of(opening.name),
        Some(state.hot) == opening.hot,
        state.owner == opening.manifest.owner(),
        state.hot_ids == opening.manifest.hot_ids(),
        state.tombstones == opening.manifest.tombstones(),
        state.seg_files.len() == opening.manifest.seg_files.len(),
        forall|i: int|
            0 <= i < state.seg_files.len() ==> #[trigger] state.seg_files[i] == Some(
                opening.manifest.seg_files[i],
            ),
        state.sealed.len() == opening.sealed.len(),
        forall|i: int|
            0 <= i < state.sealed.len() ==> index_shape(#[trigger] state.sealed[i]) == index_shape(
                opening.sealed[i],
            ),
        forall|i: int, id: u64|
            0 <= i < state.sealed.len() ==> (#[trigger] index_vectors(
                state.sealed[i],
            ).contains_key(id) <==> index_vectors(opening.sealed[i]).contains_key(id)
                && !opening.manifest.tombstones().contains((id, i as usize))),
        forall|i: int, id: u64|
            0 <= i < state.sealed.len() && index_vectors(state.sealed[i]).contains_key(id)
                ==> #[trigger] index_vectors(state.sealed[i])[id] == index_vectors(
                opening.sealed[i],
            )[id],
{
    assert forall|i: int| 0 <= i < state.sealed.len() implies index_content(
        #[trigger] state.sealed[i],
    ) == pruned(index_content(opening.sealed[i]), opening.manifest.tombstones(), i as usize) by {
        assert(state.sealed[i as usize as int] == state.sealed[i]);
    }
    assert forall|i: int, id: u64| 0 <= i < state.sealed.len() implies (#[trigger] index_vectors(
        state.sealed[i],
    ).contains_key(id) <==> index_vectors(opening.sealed[i]).contains_key(id)
        && !opening.manifest.tombstones().contains((id, i as usize))) by {
        assert(index_content(state.sealed[i]) == pruned(
            index_content(opening.sealed[i]),
            opening.manifest.tombstones(),
            i as usize,
        ));
    }
    assert forall|i: int, id: u64|
        0 <= i < state.sealed.len() && index_vectors(state.sealed[i]).contains_key(id) implies
    #[trigger] index_vectors(state.sealed[i])[id] == index_vectors(opening.sealed[i])[id] by {
        assert(index_content(state.sealed[i]) == pruned(
            index_content(opening.sealed[i]),
            opening.manifest.tombstones(),
            i as usize,
        ));
    }
}

} // verus!
