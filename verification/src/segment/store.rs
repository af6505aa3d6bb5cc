//! Persisting an index, one file at a time.
//!
//! A sync writes the sealed segments that no file holds yet, a snapshot of the hot
//! segment, the manifest of the new generation, and last of all the pointer that
//! names it. The caller performs each write, atomically, and reports it done; a
//! sync that stops half-way leaves the pointer where it was.
use turbovec::IdMapIndex;
use vstd::prelude::*;

use crate::idmap::{image_content, index_content, index_to_image};
use crate::laws::law_soundness_does_not_rest_on_files;
use crate::manifest::{MANIFEST_FORMAT, Manifest, ManifestState, owner_code};
use crate::names::{
    current_name, hot_file_name, hot_name, manifest_file_name, manifest_name, segment_file_name,
    segment_name,
};
use crate::segment::SegmentedIndex;
use crate::state::{IndexState, Owner};

verus! {

broadcast use vstd::std_specs::hash::group_hash_axioms;

/// What a sync writes next.
#[derive(Clone, Copy, Debug, PartialEq, Eq, Structural)]
pub enum Phase {
    /// The sealed segments that no file holds, then the hot segment.
    Images,
    /// The manifest of the new generation.
    Manifest,
    /// The pointer to that manifest: the commit.
    Pointer,
    /// Nothing: the generation is committed.
    Done,
}

/// A sync under way.
#[derive(Clone, Copy, Debug, PartialEq, Eq, Structural)]
pub struct SyncRun {
    /// The generation that it commits.
    pub generation: u64,
    /// How far it has come.
    pub phase: Phase,
}

/// Why an index could not be persisted.
#[derive(Clone, Copy, Debug, PartialEq, Eq, Structural)]
pub enum SyncError {
    /// No directory backs the index: save it to one first.
    Detached,
}

/// A file to be written under the directory that backs the index.
#[derive(Debug)]
pub enum FileWrite {
    /// The image of a segment.
    Image {
        /// The name of the file.
        name: String,
        /// What it holds.
        bytes: Vec<u8>,
    },
    /// A manifest.
    Manifest {
        /// The name of the file.
        name: String,
        /// What it holds.
        manifest: Manifest,
    },
    /// The pointer to the active manifest.
    Pointer {
        /// The name of the file.
        name: String,
        /// The name of the manifest, which is all that the file holds.
        target: String,
    },
}

/// What a file holds, as a mathematical value.
pub enum FileBody {
    /// The image of a segment.
    Image(Seq<u8>),
    /// A manifest.
    Manifest(ManifestState),
    /// A pointer: the text of the file.
    Pointer(Seq<char>),
}

impl FileWrite {
    /// The name of the file.
    pub open spec fn name(self) -> Seq<char> {
        match self {
            FileWrite::Image { name, .. } => name@,
            FileWrite::Manifest { name, .. } => name@,
            FileWrite::Pointer { name, .. } => name@,
        }
    }

    /// What the file is to hold.
    pub open spec fn body(self) -> FileBody {
        match self {
            FileWrite::Image { bytes, .. } => FileBody::Image(bytes@),
            FileWrite::Manifest { manifest, .. } => FileBody::Manifest(manifest@),
            FileWrite::Pointer { target, .. } => FileBody::Pointer(target@),
        }
    }
}

/// Whether every sealed segment has its file.
pub open spec fn all_saved(files: Seq<Option<Seq<char>>>) -> bool {
    forall|i: int| 0 <= i < files.len() ==> (#[trigger] files[i]) is Some
}

/// Whether sealed segment `i` is the first that no file holds.
pub open spec fn is_first_unsaved(files: Seq<Option<Seq<char>>>, i: int) -> bool {
    &&& 0 <= i < files.len()
    &&& files[i] is None
    &&& forall|j: int| 0 <= j < i ==> (#[trigger] files[j]) is Some
}

/// The first sealed segment that no file holds, where there is one.
pub open spec fn first_unsaved(files: Seq<Option<Seq<char>>>) -> int
    recommends
        !all_saved(files),
{
    choose|i: int| #[trigger] is_first_unsaved(files, i)
}

/// Whether `body` is an image of `segment`.
pub open spec fn is_image_of(body: FileBody, segment: IdMapIndex) -> bool {
    body matches FileBody::Image(bytes) && image_content(bytes) == Some(index_content(segment))
}

/// Whether `run` is a sync of `state` under way.
pub open spec fn in_run(state: IndexState, run: SyncRun) -> bool {
    &&& state.well_formed()
    &&& state.attached
    &&& run.generation == if run.phase == Phase::Done {
        state.generation as int
    } else {
        state.generation + 1
    }
    &&& run.phase != Phase::Images ==> all_saved(state.seg_files)
}

/// Whether a file of this name that holds `body` is what a sync writes next.
pub open spec fn is_due(state: IndexState, run: SyncRun, name: Seq<char>, body: FileBody) -> bool {
    match run.phase {
        Phase::Images => if all_saved(state.seg_files) {
            name == hot_name(run.generation as nat) && is_image_of(body, state.hot)
        } else {
            let i = first_unsaved(state.seg_files);
            name == segment_name(i as nat) && is_image_of(body, state.sealed[i])
        },
        Phase::Manifest => {
            &&& name == manifest_name(run.generation as nat)
            &&& body matches FileBody::Manifest(m) && m.describes(
                state,
                hot_name(run.generation as nat),
            )
        },
        Phase::Pointer => {
            &&& name == current_name()
            &&& body == FileBody::Pointer(manifest_name(run.generation as nat))
        },
        Phase::Done => false,
    }
}

/// The index and the sync once the file that was due has been written.
pub open spec fn after_write(state: IndexState, run: SyncRun) -> (IndexState, SyncRun) {
    match run.phase {
        Phase::Images => if all_saved(state.seg_files) {
            (state, SyncRun { phase: Phase::Manifest, ..run })
        } else {
            let i = first_unsaved(state.seg_files);
            (
                IndexState {
                    seg_files: state.seg_files.update(i, Some(segment_name(i as nat))),
                    ..state
                },
                run,
            )
        },
        Phase::Manifest => (state, SyncRun { phase: Phase::Pointer, ..run }),
        Phase::Pointer => (
            IndexState { generation: run.generation, ..state },
            SyncRun { phase: Phase::Done, ..run },
        ),
        Phase::Done => (state, run),
    }
}

/// The index once it is attached to a directory: as it is, where it already was
/// attached to that one, else with everything still to be written there.
pub open spec fn attached_to(state: IndexState, same_dir: bool) -> IndexState {
    if state.attached && same_dir {
        state
    } else {
        IndexState {
            attached: true,
            generation: 0,
            seg_files: Seq::new(state.seg_files.len(), |i: int| None),
            ..state
        }
    }
}

impl SegmentedIndex {
    /// Begin to persist the index incrementally to the directory that backs it.
    pub fn sync(&self) -> (r: Result<SyncRun, SyncError>)
        requires
            self@.well_formed(),
            self@.generation < u64::MAX,
        ensures
            match r {
                Ok(run) => {
                    &&& self@.attached
                    &&& run == (SyncRun {
                        generation: (self@.generation + 1) as u64,
                        phase: Phase::Images,
                    })
                    &&& in_run(self@, run)
                },
                Err(SyncError::Detached) => !self@.attached,
            },
    {
        if self.attached {
            Ok(SyncRun { generation: self.generation + 1, phase: Phase::Images })
        } else {
            Err(SyncError::Detached)
        }
    }

    /// Attach the index to a directory and begin to persist it there. Where it is
    /// already attached to the same directory this is an incremental `sync`; any
    /// other directory gets a full copy.
    pub fn save(&mut self, same_dir: bool) -> (run: SyncRun)
        requires
            old(self)@.well_formed(),
            old(self)@.attached && same_dir ==> old(self)@.generation < u64::MAX,
        ensures
            final(self)@ == attached_to(old(self)@, same_dir),
            run == (SyncRun {
                generation: (final(self)@.generation + 1) as u64,
                phase: Phase::Images,
            }),
            in_run(final(self)@, run),
            old(self)@.consistent() ==> final(self)@.consistent(),
    {
        let ghost before: IndexState = self@;
        if !(self.attached && same_dir) {
            self.attached = true;
            self.generation = 0;
            let n: usize = self.seg_files.len();
            self.seg_files = Vec::new();
            while self.seg_files.len() < n
                invariant
                    self.seg_files.len() <= n,
                    n == before.seg_files.len(),
                    self@ == (IndexState {
                        seg_files: self@.seg_files,
                        ..attached_to(before, same_dir)
                    }),
                    forall|i: int|
                        0 <= i < self.seg_files.len() ==> (#[trigger] self.seg_files@[i]) is None,
                decreases n - self.seg_files.len(),
            {
                self.seg_files.push(None);
            }
            assert(self@.seg_files =~= attached_to(before, same_dir).seg_files);
        }
        proof {
            if before.consistent() {
                law_soundness_does_not_rest_on_files(before, self@);
            }
        }
        SyncRun { generation: self.generation + 1, phase: Phase::Images }
    }

    /// The file that a sync writes next; `None` once it has committed.
    pub fn next_write(&self, run: &SyncRun) -> (r: Option<FileWrite>)
        requires
            in_run(self@, *run),
        ensures
            match r {
                Some(file) => is_due(self@, *run, file.name(), file.body()),
                None => run.phase == Phase::Done,
            },
    {
        match run.phase {
            Phase::Images => match self.unsaved() {
                Some(i) => Some(
                    FileWrite::Image {
                        name: segment_file_name(i),
                        bytes: index_to_image(&self.sealed[i]),
                    },
                ),
                None => Some(
                    FileWrite::Image {
                        name: hot_file_name(run.generation),
                        bytes: index_to_image(&self.hot),
                    },
                ),
            },
            Phase::Manifest => Some(
                FileWrite::Manifest {
                    name: manifest_file_name(run.generation),
                    manifest: self.build_manifest(hot_file_name(run.generation)),
                },
            ),
            Phase::Pointer => Some(
                FileWrite::Pointer {
                    name: "CURRENT".to_owned(),
                    target: manifest_file_name(run.generation),
                },
            ),
            Phase::Done => None,
        }
    }

    /// Note that the file that a sync wrote next is in place.
    pub fn written(&mut self, run: &mut SyncRun)
        requires
            in_run(old(self)@, *old(run)),
        ensures
            (final(self)@, *final(run)) == after_write(old(self)@, *old(run)),
            in_run(final(self)@, *final(run)),
            old(self)@.consistent() ==> final(self)@.consistent(),
    {
        let ghost before: IndexState = self@;
        match run.phase {
            Phase::Images => match self.unsaved() {
                Some(i) => {
                    self.seg_files.set(i, Some(segment_file_name(i)));
                    assert(self@.seg_files =~= before.seg_files.update(
                        i as int,
                        Some(segment_name(i as nat)),
                    ));
                },
                None => {
                    run.phase = Phase::Manifest;
                },
            },
            Phase::Manifest => {
                run.phase = Phase::Pointer;
            },
            Phase::Pointer => {
                run.phase = Phase::Done;
                self.generation = run.generation;
            },
            Phase::Done => {},
        }
        proof {
            if before.consistent() {
                law_soundness_does_not_rest_on_files(before, self@);
            }
        }
    }

    /// The first sealed segment that no file holds.
    fn unsaved(&self) -> (r: Option<usize>)
        requires
            self@.well_formed(),
        ensures
            match r {
                Some(i) => !all_saved(self@.seg_files) && i == first_unsaved(self@.seg_files)
                    && i < self@.sealed.len(),
                None => all_saved(self@.seg_files),
            },
    {
        let mut i: usize = 0;
        while i < self.seg_files.len()
            invariant
                i <= self.seg_files.len(),
                self@.well_formed(),
                forall|j: int| 0 <= j < i ==> (#[trigger] self@.seg_files[j]) is Some,
            decreases self.seg_files.len() - i,
        {
            assert(self@.seg_files[i as int] is None <==> self.seg_files@[i as int] is None);
            if self.seg_files[i].is_none() {
                assert(is_first_unsaved(self@.seg_files, i as int));
                assert(first_unsaved(self@.seg_files) == i);
                return Some(i);
            }
            i += 1;
        }
        None
    }

    /// The manifest of this index, with the hot segment in `hot_file`.
    fn build_manifest(&self, hot_file: String) -> (m: Manifest)
        requires
            self@.well_formed(),
            all_saved(self@.seg_files),
        ensures
            m@.describes(self@, hot_file@),
    {
        let mut owner_ids: Vec<u64> = Vec::with_capacity(self.owner.len());
        let mut owner_seg: Vec<i64> = Vec::with_capacity(self.owner.len());
        for (id, own) in it: self.owner.iter()
            invariant
                owner_ids@.len() == it.index(),
                owner_seg@.len() == it.index(),
                forall|j: int|
                    #![trigger owner_ids@[j]]
                    #![trigger it.seq()[j]]
                    0 <= j < it.index() ==> owner_ids@[j] == *it.seq()[j].0,
                forall|j: int|
                    0 <= j < it.index() ==> self.owner@.contains_key(#[trigger] owner_ids@[j])
                        && owner_seg@[j] == owner_code(self.owner@[owner_ids@[j]]),
        {
            owner_ids.push(*id);
            owner_seg.push(
                match *own {
                    Owner::Hot => -1,
                    Owner::Sealed(s) => s as i64,
                },
            );
        }
        assert(owner_ids@.to_set() =~= self.owner@.dom()) by {
            assert forall|id: u64| self.owner@.contains_key(id) implies owner_ids@.contains(id) by {
            }
        }
        let pairs: Vec<(u64, usize)> = self.tombstones.pairs();
        let mut tombstone_ids: Vec<u64> = Vec::with_capacity(pairs.len());
        let mut tombstone_seg: Vec<usize> = Vec::with_capacity(pairs.len());
        let mut i: usize = 0;
        while i < pairs.len()
            invariant
                i <= pairs.len(),
                tombstone_ids.len() == i,
                tombstone_seg.len() == i,
                forall|j: int|
                    0 <= j < i ==> #[trigger] pairs@[j] == (tombstone_ids@[j], tombstone_seg@[j]),
            decreases pairs.len() - i,
        {
            tombstone_ids.push(pairs[i].0);
            tombstone_seg.push(pairs[i].1);
            i += 1;
        }
        let mut seg_files: Vec<String> = Vec::with_capacity(self.seg_files.len());
        let mut i: usize = 0;
        while i < self.seg_files.len()
            invariant
                i <= self.seg_files.len(),
                seg_files.len() == i,
                all_saved(self@.seg_files),
                forall|j: int|
                    0 <= j < i ==> #[trigger] self@.seg_files[j] == Some(seg_files@[j]@),
            decreases self.seg_files.len() - i,
        {
            assert(self@.seg_files[i as int] is Some);
            match &self.seg_files[i] {
                Some(name) => {
                    seg_files.push(name.clone());
                },
                None => {},
            }
            i += 1;
        }
        let m: Manifest = Manifest {
            format: MANIFEST_FORMAT,
            dim: self.dim,
            bit_width: self.bit_width,
            max_hot: self.max_hot,
            n_sealed: self.sealed.len(),
            seg_files,
            hot_file,
            owner_ids,
            owner_seg,
            tombstone_ids,
            tombstone_seg,
        };
        assert(m@.tombstone_pairs() =~= pairs@);
        m
    }
}

/// What is stated of a file to be written is stated of its own fields, each as it is.
pub proof fn law_a_file_is_seen_as_it_is(file: FileWrite)
    ensures
        match file {
            FileWrite::Image { name, bytes } => file.name() == name@ && file.body()
                == FileBody::Image(bytes@),
            FileWrite::Manifest { name, manifest } => file.name() == name@ && file.body()
                == FileBody::Manifest(manifest@),
            FileWrite::Pointer { name, target } => file.name() == name@ && file.body()
                == FileBody::Pointer(target@),
        },
{
}

} // verus!
