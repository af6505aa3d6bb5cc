//! Why a store survives a crash: what opening it finds never depends on a file that
//! an unfinished sync has written, and the one write that commits makes it find the
//! index as it was synced.
use turbovec::IdMapIndex;
use vstd::prelude::*;

use crate::exactness::{
    all_scored, law_cutting_into_segments_does_not_show, ranks_by, scores_of,
};
use crate::fanout::finds;
use crate::idmap::{
    Content, image_content, index_content, index_ids, index_shape, index_vectors,
};
use crate::laws::{law_add_seals_at_the_cap, law_soundness_does_not_rest_on_files, takes_in};
use crate::manifest::{ManifestState, codable, law_manifest_gives_back_the_bookkeeping};
use crate::names::{
    current_name, hot_name, is_superseded, law_collection_spares_the_committed,
    law_manifest_name_carries_generation, law_names_are_distinct, manifest_name, segment_name,
    trimmed,
};
use crate::score::Hit;
use crate::segment::opening::{OpeningState, open_error, pruned};
use crate::segment::store::{
    FileBody, Phase, SyncRun, after_write, all_saved, attached_to, first_unsaved, in_run, is_due,
    is_first_unsaved,
};
use crate::state::{IndexState, Owner, is_taken};
use crate::topk::{alike, is_top_k, no_ties};

verus! {

/// What a directory holds: each file's name with its contents.
pub type Disk = Map<Seq<char>, FileBody>;

/// What opening a store finds.
#[verifier::ext_equal]
pub struct Found {
    /// The name of the active manifest.
    pub name: Seq<char>,
    /// The active manifest.
    pub manifest: ManifestState,
    /// What the file of each sealed segment holds.
    pub sealed: Seq<Content>,
    /// What the hot-segment snapshot holds.
    pub hot: Content,
}

/// What the image of this name holds, where there is one.
pub open spec fn image_at(disk: Disk, name: Seq<char>) -> Option<Content> {
    if disk.contains_key(name) {
        match disk[name] {
            FileBody::Image(bytes) => image_content(bytes),
            _ => None,
        }
    } else {
        None
    }
}

/// The name of the active manifest, where the pointer is in place.
pub open spec fn active_name(disk: Disk) -> Option<Seq<char>> {
    if disk.contains_key(current_name()) {
        match disk[current_name()] {
            FileBody::Pointer(text) => Some(trimmed(text)),
            _ => None,
        }
    } else {
        None
    }
}

/// The manifest of this name, where there is one.
pub open spec fn manifest_at(disk: Disk, name: Seq<char>) -> Option<ManifestState> {
    if disk.contains_key(name) {
        match disk[name] {
            FileBody::Manifest(m) => Some(m),
            _ => None,
        }
    } else {
        None
    }
}

/// Every file that a manifest names is an image.
pub open spec fn complete(disk: Disk, manifest: ManifestState) -> bool {
    &&& forall|i: int|
        0 <= i < manifest.seg_files.len() ==> image_at(
            disk,
            #[trigger] manifest.seg_files[i],
        ) is Some
    &&& image_at(disk, manifest.hot_file) is Some
}

/// What opening the store in this directory finds; `None` where it cannot be opened.
pub open spec fn recover(disk: Disk) -> Option<Found> {
    match active_name(disk) {
        None => None,
        Some(name) => match manifest_at(disk, name) {
            None => None,
            Some(manifest) => if open_error(manifest) is None && complete(disk, manifest) {
                Some(
                    Found {
                        name,
                        manifest,
                        sealed: manifest.seg_files.map_values(
                            |file: Seq<char>| image_at(disk, file)->0,
                        ),
                        hot: image_at(disk, manifest.hot_file)->0,
                    },
                )
            } else {
                None
            },
        },
    }
}

/// The opening has read all of what there is to be found.
pub open spec fn has_read(opening: OpeningState, found: Found) -> bool {
    &&& opening.name == found.name
    &&& opening.manifest == found.manifest
    &&& opening.sealed.len() == found.sealed.len()
    &&& forall|i: int|
        0 <= i < found.sealed.len() ==> index_content(#[trigger] opening.sealed[i])
            == found.sealed[i]
    &&& opening.hot matches Some(hot) && index_content(hot) == found.hot
}

/// Whether opening depends on the file of this name.
pub open spec fn is_needed(disk: Disk, name: Seq<char>) -> bool {
    ||| name == current_name()
    ||| active_name(disk) matches Some(active) && {
        ||| name == active
        ||| manifest_at(disk, active) matches Some(m) && (name == m.hot_file
            || m.seg_files.contains(name))
    }
}

/// What opening finds rests on the needed files alone. So nothing else that lies in
/// the directory matters: no temporary file, and no file of a generation that was
/// never committed.
pub proof fn law_only_needed_files_matter(disk: Disk, other: Disk)
    requires
        forall|name: Seq<char>| #[trigger]
            is_needed(disk, name) ==> (disk.contains_key(name) <==> other.contains_key(name)) && (
            disk.contains_key(name) ==> disk[name] == other[name]),
    ensures
        recover(other) == recover(disk),
{
    assert(is_needed(disk, current_name()));
    assert(active_name(other) == active_name(disk));
    if let Some(active) = active_name(disk) {
        assert(is_needed(disk, active));
        assert(manifest_at(other, active) == manifest_at(disk, active));
        if let Some(m) = manifest_at(disk, active) {
            assert(is_needed(disk, m.hot_file));
            assert forall|i: int| 0 <= i < m.seg_files.len() implies image_at(
                other,
                #[trigger] m.seg_files[i],
            ) == image_at(disk, m.seg_files[i]) by {
                assert(m.seg_files.contains(m.seg_files[i]));
                assert(is_needed(disk, m.seg_files[i]));
            }
            assert(complete(other, m) == complete(disk, m)) by {
                if complete(disk, m) {
                    assert forall|i: int| 0 <= i < m.seg_files.len() implies image_at(
                        other,
                        #[trigger] m.seg_files[i],
                    ) is Some by {
                    }
                }
                if complete(other, m) {
                    assert forall|i: int| 0 <= i < m.seg_files.len() implies image_at(
                        disk,
                        #[trigger] m.seg_files[i],
                    ) is Some by {
                    }
                }
            }
            assert(m.seg_files.map_values(|file: Seq<char>| image_at(other, file)->0)
                =~= m.seg_files.map_values(|file: Seq<char>| image_at(disk, file)->0));
        }
    }
}

/// Each sealed segment that has a file has it under its own name, and the file
/// holds what the segment holds, but for what was deleted from the segment later.
pub open spec fn keeps_segments(disk: Disk, state: IndexState) -> bool {
    forall|s: usize|
        s < state.seg_files.len() && (#[trigger] state.seg_files[s as int]) is Some ==> {
            &&& state.seg_files[s as int] == Some(segment_name(s as nat))
            &&& image_at(disk, segment_name(s as nat)) matches Some(content)
                && index_content(state.sealed[s as int]) == pruned(content, state.tombstones, s)
        }
}

/// The committed generation of the store is the last that the index committed, and
/// needs no sealed segment that the index has not noted as written. Before the first
/// commit there is no pointer.
pub open spec fn holds_last_commit(disk: Disk, state: IndexState) -> bool {
    if state.generation == 0 {
        !disk.contains_key(current_name())
    } else {
        &&& active_name(disk) == Some(manifest_name(state.generation as nat))
        &&& manifest_at(disk, manifest_name(state.generation as nat)) matches Some(m) && {
            &&& m.hot_file == hot_name(state.generation as nat)
            &&& m.seg_files.len() <= state.seg_files.len()
            &&& forall|i: int|
                0 <= i < m.seg_files.len() ==> state.seg_files[i] == Some(
                    #[trigger] m.seg_files[i],
                )
        }
    }
}

/// The directory backs the index.
pub open spec fn backs(disk: Disk, state: IndexState) -> bool {
    &&& state.well_formed()
    &&& state.attached
    &&& keeps_segments(disk, state)
    &&& holds_last_commit(disk, state)
}

/// What a sync under way has already put in place.
pub open spec fn has_written(disk: Disk, state: IndexState, run: SyncRun) -> bool {
    &&& run.phase == Phase::Manifest || run.phase == Phase::Pointer ==> image_at(
        disk,
        hot_name(run.generation as nat),
    ) == Some(index_content(state.hot))
    &&& run.phase == Phase::Pointer ==> (manifest_at(
        disk,
        manifest_name(run.generation as nat),
    ) matches Some(m) && m.describes(state, hot_name(run.generation as nat)))
}

/// Opening the store finds exactly this index: its bookkeeping, what its hot segment
/// holds, and what each sealed segment held before the recorded deletes.
pub open spec fn commits(disk: Disk, state: IndexState) -> bool {
    recover(disk) matches Some(found) && {
        &&& found.name == manifest_name(state.generation as nat)
        &&& found.manifest.describes(state, hot_name(state.generation as nat))
        &&& found.hot == index_content(state.hot)
        &&& found.sealed.len() == state.sealed.len()
        &&& forall|s: usize|
            s < state.sealed.len() ==> index_content(#[trigger] state.sealed[s as int]) == pruned(
                found.sealed[s as int],
                state.tombstones,
                s,
            )
    }
}

/// A directory without a pointer backs any index that has just been attached to it. One
/// with a pointer does not: that pointer is to what another index committed.
pub proof fn law_fresh_directory_backs(disk: Disk, state: IndexState)
    requires
        state.well_formed(),
        !disk.contains_key(current_name()),
    ensures
        backs(disk, attached_to(state, false)),
{
}

/// Sealed files are written once: a sync never writes a file that already holds a
/// sealed segment.
pub proof fn law_sealed_files_are_written_once(
    disk: Disk,
    state: IndexState,
    run: SyncRun,
    name: Seq<char>,
    body: FileBody,
    s: usize,
)
    requires
        keeps_segments(disk, state),
        in_run(state, run),
        is_due(state, run, name, body),
        s < state.seg_files.len(),
        state.seg_files[s as int] is Some,
    ensures
        state.seg_files[s as int] != Some(name),
        after_write(state, run).0.seg_files[s as int] == state.seg_files[s as int],
{
    law_names_are_distinct(s as nat, run.generation as nat);
    if run.phase == Phase::Images && !all_saved(state.seg_files) {
        lemma_first_unsaved(state.seg_files);
        law_names_are_distinct(s as nat, first_unsaved(state.seg_files) as nat);
    }
}

proof fn lemma_first_unsaved(files: Seq<Option<Seq<char>>>)
    requires
        !all_saved(files),
    ensures
        is_first_unsaved(files, first_unsaved(files)),
{
    let i = choose|i: int| 0 <= i < files.len() && (#[trigger] files[i]) is None;
    lemma_some_first_unsaved(files, i);
}

proof fn lemma_some_first_unsaved(files: Seq<Option<Seq<char>>>, i: int)
    requires
        0 <= i < files.len(),
        files[i] is None,
    ensures
        exists|j: int| #[trigger] is_first_unsaved(files, j),
    decreases i,
{
    if exists|j: int| 0 <= j < i && (#[trigger] files[j]) is None {
        let j = choose|j: int| 0 <= j < i && (#[trigger] files[j]) is None;
        lemma_some_first_unsaved(files, j);
    } else {
        assert(is_first_unsaved(files, i));
    }
}

proof fn lemma_due_name_is_not_needed(
    disk: Disk,
    state: IndexState,
    run: SyncRun,
    name: Seq<char>,
    body: FileBody,
)
    requires
        backs(disk, state),
        in_run(state, run),
        is_due(state, run, name, body),
        run.phase != Phase::Pointer,
    ensures
        !is_needed(disk, name),
{
    let (g, next) = (state.generation as nat, run.generation as nat);
    law_names_are_distinct(g, next);
    law_names_are_distinct(next, g);
    if run.phase == Phase::Images && !all_saved(state.seg_files) {
        lemma_first_unsaved(state.seg_files);
        let u = first_unsaved(state.seg_files) as nat;
        law_names_are_distinct(u, g);
    }
    if state.generation != 0 {
        let m = manifest_at(disk, manifest_name(g))->0;
        if m.seg_files.contains(name) {
            let i = m.seg_files.index_of(name);
            assert(state.seg_files[i] == Some(m.seg_files[i]));
            law_sealed_files_are_written_once(disk, state, run, name, body, i as usize);
        }
    }
}

/// Whatever else the directory holds, a write before the commit keeps true what it has
/// of this index.
proof fn lemma_write_keeps_segments(
    disk: Disk,
    state: IndexState,
    run: SyncRun,
    name: Seq<char>,
    body: FileBody,
)
    requires
        state.consistent(),
        keeps_segments(disk, state),
        in_run(state, run),
        has_written(disk, state, run),
        is_due(state, run, name, body),
        run.phase != Phase::Pointer,
    ensures
        keeps_segments(disk.insert(name, body), after_write(state, run).0),
        has_written(
            disk.insert(name, body),
            after_write(state, run).0,
            after_write(state, run).1,
        ),
        in_run(after_write(state, run).0, after_write(state, run).1),
{
    let other = disk.insert(name, body);
    let next = after_write(state, run).0;
    if run.phase == Phase::Images && !all_saved(state.seg_files) {
        lemma_first_unsaved(state.seg_files);
    }
    assert forall|s: usize|
        s < next.seg_files.len() && (#[trigger] next.seg_files[s as int]) is Some implies {
        &&& next.seg_files[s as int] == Some(segment_name(s as nat))
        &&& image_at(other, segment_name(s as nat)) matches Some(content) && index_content(
            next.sealed[s as int],
        ) == pruned(content, next.tombstones, s)
    } by {
        if state.seg_files[s as int] is Some {
            law_sealed_files_are_written_once(disk, state, run, name, body, s);
        } else {
            let content = index_content(state.sealed[s as int]);
            assert(image_at(other, name) == Some(content));
            assert(pruned(content, state.tombstones, s).1 =~= content.1) by {
                assert forall|id: u64| state.tombstones.contains((id, s)) implies !index_ids(
                    state.sealed[s as int],
                ).contains(id) by {
                }
            }
        }
    }
    law_names_are_distinct(run.generation as nat, run.generation as nat);
}

/// A crash before the commit loses nothing: no write of a sync but its last changes
/// what opening the store finds. After each, the directory still backs the index.
pub proof fn law_writes_before_the_commit_are_harmless(
    disk: Disk,
    state: IndexState,
    run: SyncRun,
    name: Seq<char>,
    body: FileBody,
)
    requires
        state.consistent(),
        backs(disk, state),
        in_run(state, run),
        has_written(disk, state, run),
        is_due(state, run, name, body),
        run.phase != Phase::Pointer,
    ensures
        recover(disk.insert(name, body)) == recover(disk),
        backs(disk.insert(name, body), after_write(state, run).0),
        has_written(
            disk.insert(name, body),
            after_write(state, run).0,
            after_write(state, run).1,
        ),
        in_run(after_write(state, run).0, after_write(state, run).1),
{
    let other = disk.insert(name, body);
    let next = after_write(state, run).0;
    lemma_due_name_is_not_needed(disk, state, run, name, body);
    assert(is_needed(disk, current_name()));
    law_only_needed_files_matter(disk, other);
    lemma_write_keeps_segments(disk, state, run, name, body);
    if run.phase == Phase::Images && !all_saved(state.seg_files) {
        lemma_first_unsaved(state.seg_files);
    }
    assert(holds_last_commit(other, next)) by {
        if state.generation != 0 {
            assert(is_needed(disk, manifest_name(state.generation as nat)));
            let m = manifest_at(disk, manifest_name(state.generation as nat))->0;
            assert(manifest_at(other, manifest_name(state.generation as nat)) == Some(m));
            assert forall|i: int| 0 <= i < m.seg_files.len() implies next.seg_files[i] == Some(
                #[trigger] m.seg_files[i],
            ) by {
                assert(state.seg_files[i] == Some(m.seg_files[i]));
            }
        }
    }
}

/// The last write of a sync commits: from then on, opening the store finds the index
/// as it was synced.
pub proof fn law_the_pointer_commits(
    disk: Disk,
    state: IndexState,
    run: SyncRun,
    name: Seq<char>,
    body: FileBody,
)
    requires
        keeps_segments(disk, state),
        in_run(state, run),
        has_written(disk, state, run),
        is_due(state, run, name, body),
        run.phase == Phase::Pointer,
    ensures
        after_write(state, run).0 == (IndexState { generation: run.generation, ..state }),
        after_write(state, run).1.phase == Phase::Done,
        commits(disk.insert(name, body), after_write(state, run).0),
        backs(disk.insert(name, body), after_write(state, run).0),
{
    let other = disk.insert(name, body);
    let next = after_write(state, run).0;
    let g = run.generation as nat;
    law_manifest_name_carries_generation(run.generation);
    law_names_are_distinct(g, g);
    let m = manifest_at(disk, manifest_name(g))->0;
    assert(active_name(other) == Some(manifest_name(g)));
    assert(manifest_at(other, manifest_name(g)) == Some(m));
    assert forall|s: usize| s < state.seg_files.len() implies {
        &&& #[trigger] state.seg_files[s as int] == Some(m.seg_files[s as int])
        &&& m.seg_files[s as int] == segment_name(s as nat)
        &&& image_at(other, m.seg_files[s as int]) matches Some(content) && index_content(
            state.sealed[s as int],
        ) == pruned(content, state.tombstones, s)
    } by {
        law_names_are_distinct(s as nat, g);
    }
    assert(complete(other, m)) by {
        assert forall|i: int| 0 <= i < m.seg_files.len() implies image_at(
            other,
            #[trigger] m.seg_files[i],
        ) is Some by {
            assert(state.seg_files[i as usize as int] == Some(m.seg_files[i]));
        }
    }
    assert(m.describes(next, hot_name(g)));
    let found = recover(other)->0;
    assert forall|s: usize| s < next.sealed.len() implies index_content(
        #[trigger] next.sealed[s as int],
    ) == pruned(found.sealed[s as int], next.tombstones, s) by {
        assert(state.seg_files[s as int] == Some(m.seg_files[s as int]));
    }
    assert(keeps_segments(other, next)) by {
        assert forall|s: usize|
            s < next.seg_files.len() && (#[trigger] next.seg_files[s as int]) is Some implies {
            &&& next.seg_files[s as int] == Some(segment_name(s as nat))
            &&& image_at(other, segment_name(s as nat)) matches Some(content) && index_content(
                next.sealed[s as int],
            ) == pruned(content, next.tombstones, s)
        } by {
            assert(state.seg_files[s as int] == Some(m.seg_files[s as int]));
        }
    }
    assert forall|i: int| 0 <= i < m.seg_files.len() implies next.seg_files[i] == Some(
        #[trigger] m.seg_files[i],
    ) by {
        assert(state.seg_files[i as usize as int] == Some(m.seg_files[i]));
    }
}

/// `trace` lists files in the order in which a sync writes them, from where it is.
pub open spec fn is_trace(
    state: IndexState,
    run: SyncRun,
    trace: Seq<(Seq<char>, FileBody)>,
) -> bool
    decreases trace.len(),
{
    trace.len() == 0 || {
        let (next, step) = after_write(state, run);
        is_due(state, run, trace[0].0, trace[0].1) && is_trace(next, step, trace.drop_first())
    }
}

/// The directory once the files of `trace` have been written to it.
pub open spec fn with_files(disk: Disk, trace: Seq<(Seq<char>, FileBody)>) -> Disk
    decreases trace.len(),
{
    if trace.len() == 0 {
        disk
    } else {
        with_files(disk.insert(trace[0].0, trace[0].1), trace.drop_first())
    }
}

/// The index and the sync once `n` files have been written.
pub open spec fn after_writes(state: IndexState, run: SyncRun, n: nat) -> (IndexState, SyncRun)
    decreases n,
{
    if n == 0 {
        (state, run)
    } else {
        let (next, step) = after_write(state, run);
        after_writes(next, step, (n - 1) as nat)
    }
}

/// A sync is atomic. However many of its writes took place, opening the store finds
/// the generation that was committed before, until the whole sync is done; from then
/// on it finds the index as it was synced.
pub proof fn law_a_sync_is_atomic(
    disk: Disk,
    state: IndexState,
    run: SyncRun,
    trace: Seq<(Seq<char>, FileBody)>,
)
    requires
        state.consistent(),
        backs(disk, state),
        in_run(state, run),
        has_written(disk, state, run),
        run.phase != Phase::Done,
        is_trace(state, run, trace),
    ensures
        after_writes(state, run, trace.len()).1.phase != Phase::Done ==> recover(
            with_files(disk, trace),
        ) == recover(disk),
        after_writes(state, run, trace.len()).1.phase == Phase::Done ==> commits(
            with_files(disk, trace),
            after_writes(state, run, trace.len()).0,
        ),
        backs(with_files(disk, trace), after_writes(state, run, trace.len()).0),
        after_writes(state, run, trace.len()).0.consistent(),
        after_writes(state, run, trace.len()).0.vectors() == state.vectors(),
    decreases trace.len(),
{
    if trace.len() > 0 {
        let (name, body) = trace[0];
        let (next, step) = after_write(state, run);
        let rest = trace.drop_first();
        if run.phase == Phase::Images && !all_saved(state.seg_files) {
            lemma_first_unsaved(state.seg_files);
        }
        law_soundness_does_not_rest_on_files(state, next);
        if run.phase == Phase::Pointer {
            law_the_pointer_commits(disk, state, run, name, body);
            reveal_with_fuel(is_trace, 2);
            reveal_with_fuel(after_writes, 2);
            reveal_with_fuel(with_files, 2);
            assert(rest.len() == 0);
        } else {
            law_writes_before_the_commit_are_harmless(disk, state, run, name, body);
            law_a_sync_is_atomic(disk.insert(name, body), next, step, rest);
        }
    }
}

/// A sync that is done commits, whatever else the directory held: even where it held
/// another store, opening it finds the index as it was synced.
pub proof fn law_a_finished_sync_commits(
    disk: Disk,
    state: IndexState,
    run: SyncRun,
    trace: Seq<(Seq<char>, FileBody)>,
)
    requires
        state.consistent(),
        keeps_segments(disk, state),
        in_run(state, run),
        has_written(disk, state, run),
        run.phase != Phase::Done,
        is_trace(state, run, trace),
        after_writes(state, run, trace.len()).1.phase == Phase::Done,
    ensures
        commits(with_files(disk, trace), after_writes(state, run, trace.len()).0),
        backs(with_files(disk, trace), after_writes(state, run, trace.len()).0),
        after_writes(state, run, trace.len()).0.consistent(),
        after_writes(state, run, trace.len()).0.vectors() == state.vectors(),
    decreases trace.len(),
{
    if trace.len() > 0 {
        let (name, body) = trace[0];
        let (next, step) = after_write(state, run);
        let rest = trace.drop_first();
        if run.phase == Phase::Images && !all_saved(state.seg_files) {
            lemma_first_unsaved(state.seg_files);
        }
        law_soundness_does_not_rest_on_files(state, next);
        if run.phase == Phase::Pointer {
            law_the_pointer_commits(disk, state, run, name, body);
            reveal_with_fuel(is_trace, 2);
            reveal_with_fuel(after_writes, 2);
            reveal_with_fuel(with_files, 2);
            assert(rest.len() == 0);
        } else {
            lemma_write_keeps_segments(disk, state, run, name, body);
            law_a_finished_sync_commits(disk.insert(name, body), next, step, rest);
        }
    }
}

/// Saving to another directory puts a full copy there, whatever that directory held.
/// Where it held another store, a save that is interrupted is not covered: the files of
/// that store are overwritten before its pointer is.
pub proof fn law_a_full_copy_goes_anywhere(
    disk: Disk,
    state: IndexState,
    trace: Seq<(Seq<char>, FileBody)>,
)
    requires
        state.consistent(),
        is_trace(attached_to(state, false), SyncRun { generation: 1, phase: Phase::Images }, trace),
        after_writes(
            attached_to(state, false),
            SyncRun { generation: 1, phase: Phase::Images },
            trace.len(),
        ).1.phase == Phase::Done,
    ensures
        ({
            let copied = after_writes(
                attached_to(state, false),
                SyncRun { generation: 1, phase: Phase::Images },
                trace.len(),
            ).0;
            &&& commits(with_files(disk, trace), copied)
            &&& backs(with_files(disk, trace), copied)
            &&& copied.consistent()
            &&& copied.vectors() == state.vectors()
        }),
{
    let rooted = attached_to(state, false);
    law_soundness_does_not_rest_on_files(state, rooted);
    law_a_finished_sync_commits(
        disk,
        rooted,
        SyncRun { generation: 1, phase: Phase::Images },
        trace,
    );
}

/// The number of sealed segments that no file holds.
pub open spec fn count_unsaved(files: Seq<Option<Seq<char>>>) -> nat
    decreases files.len(),
{
    if files.len() == 0 {
        0
    } else {
        count_unsaved(files.drop_last()) + if files.last() is None {
            1nat
        } else {
            0nat
        }
    }
}

proof fn lemma_count_unsaved(files: Seq<Option<Seq<char>>>, i: int, name: Seq<char>)
    requires
        0 <= i < files.len(),
        files[i] is None,
    ensures
        count_unsaved(files) == count_unsaved(files.update(i, Some(name))) + 1,
    decreases files.len(),
{
    let saved = files.update(i, Some(name));
    if i == files.len() - 1 {
        assert(saved.drop_last() =~= files.drop_last());
    } else {
        assert(saved.drop_last() =~= files.drop_last().update(i, Some(name)));
        lemma_count_unsaved(files.drop_last(), i, name);
    }
}

proof fn lemma_all_saved(files: Seq<Option<Seq<char>>>)
    requires
        all_saved(files),
    ensures
        count_unsaved(files) == 0,
    decreases files.len(),
{
    if files.len() > 0 {
        assert forall|i: int| 0 <= i < files.drop_last().len() implies (
        #[trigger] files.drop_last()[i]) is Some by {
            assert(files[i] is Some);
        }
        lemma_all_saved(files.drop_last());
        assert(files[files.len() - 1] is Some);
    }
}

/// A sync is incremental: it is done after one write for each sealed segment that no
/// file holds yet, and three more: the hot snapshot, the manifest and the pointer.
pub proof fn law_a_sync_is_incremental(state: IndexState, run: SyncRun)
    requires
        run.phase == Phase::Images,
    ensures
        after_writes(state, run, count_unsaved(state.seg_files) + 3).1.phase == Phase::Done,
        after_writes(state, run, count_unsaved(state.seg_files) + 2).1.phase != Phase::Done,
    decreases count_unsaved(state.seg_files),
{
    let n = count_unsaved(state.seg_files);
    if all_saved(state.seg_files) {
        lemma_all_saved(state.seg_files);
        reveal_with_fuel(after_writes, 4);
    } else {
        lemma_first_unsaved(state.seg_files);
        let i = first_unsaved(state.seg_files);
        let next = after_write(state, run).0;
        lemma_count_unsaved(state.seg_files, i, segment_name(i as nat));
        law_a_sync_is_incremental(next, run);
        reveal_with_fuel(after_writes, 4);
    }
}

/// Deleting the files of superseded generations changes nothing: opening the store
/// finds what it found, and the directory still backs the index.
pub proof fn law_collection_changes_nothing(
    disk: Disk,
    state: IndexState,
    gone: Set<Seq<char>>,
)
    requires
        backs(disk, state),
        forall|name: Seq<char>| #[trigger]
            gone.contains(name) ==> is_superseded(name, state.generation),
    ensures
        recover(disk.remove_keys(gone)) == recover(disk),
        backs(disk.remove_keys(gone), state),
{
    let other = disk.remove_keys(gone);
    let g = state.generation;
    law_collection_spares_the_committed(g, g, 0);
    assert forall|s: usize|
        s < state.seg_files.len() && (#[trigger] state.seg_files[s as int]) is Some implies
    image_at(other, segment_name(s as nat)) == image_at(disk, segment_name(s as nat)) by {
        law_collection_spares_the_committed(g, g, s as nat);
    }
    assert forall|name: Seq<char>| #[trigger] is_needed(disk, name) implies !gone.contains(
        name,
    ) by {
        if state.generation != 0 {
            let m = manifest_at(disk, manifest_name(g as nat))->0;
            if m.seg_files.contains(name) {
                let i = m.seg_files.index_of(name);
                assert(state.seg_files[i as usize as int] == Some(m.seg_files[i]));
                law_collection_spares_the_committed(g, g, i as usize as nat);
            }
        }
    }
    assert(is_needed(disk, current_name()));
    law_only_needed_files_matter(disk, other);
    assert(active_name(other) == active_name(disk));
    assert(manifest_at(other, manifest_name(g as nat)) == manifest_at(
        disk,
        manifest_name(g as nat),
    ));
}

/// Sealing and adding need no write: the directory goes on backing the index, so that
/// the next sync is incremental.
pub proof fn law_growth_keeps_the_backing(
    disk: Disk,
    before: IndexState,
    hot: IdMapIndex,
    ids: Seq<u64>,
    after: IndexState,
)
    requires
        backs(disk, before),
        before.sealed_as(after) || before.added_as(hot, ids, after),
        after.well_formed(),
    ensures
        backs(disk, after),
{
    assert forall|s: usize|
        s < after.seg_files.len() && (#[trigger] after.seg_files[s as int]) is Some implies s
        < before.seg_files.len() && before.seg_files[s as int] == after.seg_files[s as int]
        && before.sealed[s as int] == after.sealed[s as int] by {
    }
    lemma_same_last_commit(disk, before, after);
}

/// Removing needs no write either: the delete is on record, and the record is part of
/// the next manifest.
pub proof fn law_removal_keeps_the_backing(
    disk: Disk,
    before: IndexState,
    id: u64,
    removed: bool,
    after: IndexState,
)
    requires
        backs(disk, before),
        before.routes(id),
        before.removed_as(id, removed, after),
        after.well_formed(),
    ensures
        backs(disk, after),
{
    assert forall|s: usize|
        s < after.seg_files.len() && (#[trigger] after.seg_files[s as int]) is Some implies {
        &&& after.seg_files[s as int] == Some(segment_name(s as nat))
        &&& image_at(disk, segment_name(s as nat)) matches Some(content) && index_content(
            after.sealed[s as int],
        ) == pruned(content, after.tombstones, s)
    } by {
        assert(before.seg_files[s as int] is Some);
        let content = image_at(disk, segment_name(s as nat))->0;
        assert(index_content(before.sealed[s as int]) == pruned(content, before.tombstones, s));
        assert(index_content(after.sealed[s as int]).1 =~= pruned(content, after.tombstones, s).1);
    }
    lemma_same_last_commit(disk, before, after);
}

proof fn lemma_same_last_commit(disk: Disk, before: IndexState, after: IndexState)
    requires
        holds_last_commit(disk, before),
        after.generation == before.generation,
        before.seg_files.len() <= after.seg_files.len(),
        forall|i: int|
            0 <= i < before.seg_files.len() ==> #[trigger] after.seg_files[i]
                == before.seg_files[i],
    ensures
        holds_last_commit(disk, after),
{
    if before.generation != 0 {
        let m = manifest_at(disk, manifest_name(before.generation as nat))->0;
        assert forall|i: int| 0 <= i < m.seg_files.len() implies after.seg_files[i] == Some(
            #[trigger] m.seg_files[i],
        ) by {
            assert(before.seg_files[i] == Some(m.seg_files[i]));
        }
    }
}

/// What an opening has read so far is what the directory holds.
pub open spec fn reads(opening: OpeningState, disk: Disk) -> bool {
    &&& opening.well_formed()
    &&& active_name(disk) == Some(opening.name)
    &&& manifest_at(disk, opening.name) == Some(opening.manifest)
    &&& open_error(opening.manifest) is None
    &&& forall|i: int|
        0 <= i < opening.sealed.len() ==> image_at(disk, opening.manifest.seg_files[i]) == Some(
            index_content(#[trigger] opening.sealed[i]),
        )
    &&& opening.hot matches Some(hot) ==> image_at(disk, opening.manifest.hot_file) == Some(
        index_content(hot),
    )
}

/// Handing an opening the file that it asks for keeps it true to the directory.
pub proof fn law_each_file_is_read_in_turn(
    disk: Disk,
    opening: OpeningState,
    name: Seq<char>,
    segment: IdMapIndex,
)
    requires
        reads(opening, disk),
        opening.wanted() == Some(name),
        image_at(disk, name) == Some(index_content(segment)),
    ensures
        reads(opening.with(segment), disk),
{
    let next = opening.with(segment);
    assert forall|i: int| 0 <= i < next.sealed.len() implies image_at(
        disk,
        next.manifest.seg_files[i],
    ) == Some(index_content(#[trigger] next.sealed[i])) by {
        if i < opening.sealed.len() {
            assert(next.sealed[i] == opening.sealed[i]);
        }
    }
}

/// An opening that wants no more files has read the whole committed generation.
pub proof fn law_a_finished_opening_has_read_the_store(disk: Disk, opening: OpeningState)
    requires
        reads(opening, disk),
        opening.wanted() is None,
    ensures
        recover(disk) matches Some(found) && has_read(opening, found),
{
    let m = opening.manifest;
    assert forall|i: int| 0 <= i < m.seg_files.len() implies image_at(
        disk,
        #[trigger] m.seg_files[i],
    ) is Some by {
        assert(image_at(disk, m.seg_files[i]) == Some(index_content(opening.sealed[i])));
    }
    let found = recover(disk)->0;
    assert forall|i: int| 0 <= i < found.sealed.len() implies index_content(
        #[trigger] opening.sealed[i],
    ) == found.sealed[i] by {
    }
}

/// A store with a file that is asked for but is no image has nothing to be found.
pub proof fn law_a_broken_store_has_nothing_to_find(
    disk: Disk,
    opening: OpeningState,
    name: Seq<char>,
)
    requires
        reads(opening, disk),
        opening.wanted() == Some(name),
        image_at(disk, name) is None,
    ensures
        recover(disk) is None,
{
}

/// Opening the store gives the committed index back: the same live ids with the same
/// vectors in the same segments, each of the same shape, the same deletes, the same
/// generation. It is as sound as the index that was committed, and the store backs it as
/// it backed that one, so that the next sync goes on from there.
pub proof fn law_opening_gives_the_index_back(
    disk: Disk,
    state: IndexState,
    opening: OpeningState,
    opened: IndexState,
)
    requires
        state.consistent(),
        state.sealed.len() <= i64::MAX,
        commits(disk, state),
        has_read(opening, recover(disk)->0),
        opening.opens_as(opened),
        opened.well_formed(),
    ensures
        opened.consistent(),
        opened.vectors() == state.vectors(),
        opened.segments().len() == state.segments().len(),
        forall|i: int|
            0 <= i < state.segments().len() ==> index_content(#[trigger] opened.segments()[i])
                == index_content(state.segments()[i]),
        opened == (IndexState {
            sealed: opened.sealed,
            hot: opened.hot,
            attached: true,
            ..state
        }),
        backs(disk, state) ==> backs(disk, opened),
{
    let found = recover(disk)->0;
    let m = found.manifest;
    assert(codable(state.owner)) by {
        assert forall|id: u64| #[trigger] state.owner.contains_key(id) implies (
        match state.owner[id] {
            Owner::Hot => true,
            Owner::Sealed(s) => s <= i64::MAX,
        }) by {
            assert(state.routes(id));
        }
    }
    law_manifest_gives_back_the_bookkeeping(m, state, hot_name(state.generation as nat));
    law_manifest_name_carries_generation(state.generation);
    assert(opened.seg_files =~= state.seg_files) by {
        assert forall|i: int| 0 <= i < state.seg_files.len() implies opened.seg_files[i]
            == state.seg_files[i] by {
            assert(state.seg_files[i] == Some(m.seg_files[i]));
        }
    }
    assert forall|s: usize| s < state.sealed.len() implies index_content(
        #[trigger] opened.sealed[s as int],
    ) == index_content(state.sealed[s as int]) by {
        assert(index_content(opening.sealed[s as int]) == found.sealed[s as int]);
    }
    assert forall|i: int| 0 <= i < state.segments().len() implies index_content(
        #[trigger] opened.segments()[i],
    ) == index_content(state.segments()[i]) by {
        if i < state.sealed.len() {
            assert(opened.sealed[i as usize as int] == opened.segments()[i]);
        }
    }
    assert forall|tag: Owner| #[trigger] opened.owned(tag) == state.owned(tag) by {
        assert(opened.owned(tag) =~= state.owned(tag));
    }
    assert forall|id: u64| #[trigger] opened.routes(id) by {
        assert(state.routes(id));
    }
    assert forall|s: usize| s < opened.sealed.len() implies index_ids(
        #[trigger] opened.sealed[s as int],
    ) == opened.owned(Owner::Sealed(s)) by {
        assert(index_ids(state.sealed[s as int]) == state.owned(Owner::Sealed(s)));
    }
    assert forall|id: u64, s: usize| #[trigger] opened.tombstones.contains((id, s)) implies s
        < opened.sealed.len() && !index_ids(opened.sealed[s as int]).contains(id) by {
        assert(state.tombstones.contains((id, s)));
        assert(!index_ids(state.sealed[s as int]).contains(id));
    }
    assert(opened.vectors() =~= state.vectors()) by {
        assert forall|id: u64| state.owner.contains_key(id) implies opened.vectors()[id]
            == state.vectors()[id] by {
            assert(state.routes(id));
        }
    }
    if backs(disk, state) {
        assert forall|s: usize|
            s < opened.seg_files.len() && (#[trigger] opened.seg_files[s as int]) is Some implies {
            &&& opened.seg_files[s as int] == Some(segment_name(s as nat))
            &&& image_at(disk, segment_name(s as nat)) matches Some(content) && index_content(
                opened.sealed[s as int],
            ) == pruned(content, opened.tombstones, s)
        } by {
            assert(state.seg_files[s as int] is Some);
        }
    }
}

/// A search ranks the opened index as it ranked the committed one: whatever scores the
/// encoded vectors, the two have the same best `k`.
pub proof fn law_an_opened_index_ranks_alike(
    disk: Disk,
    state: IndexState,
    opening: OpeningState,
    opened: IndexState,
    score: spec_fn(Seq<u8>) -> u32,
    k: nat,
    top: Seq<Hit>,
)
    requires
        state.consistent(),
        state.sealed.len() <= i64::MAX,
        commits(disk, state),
        has_read(opening, recover(disk)->0),
        opening.opens_as(opened),
        opened.well_formed(),
    ensures
        is_top_k(top, opened.ids(), |id: u64| score(opened.vectors()[id]), k) == is_top_k(
            top,
            state.ids(),
            |id: u64| score(state.vectors()[id]),
            k,
        ),
{
    law_opening_gives_the_index_back(disk, state, opening, opened);
    assert((|id: u64| score(opened.vectors()[id])) =~= (|id: u64| score(state.vectors()[id])));
}

/// A search of the opened index answers like one of the committed index, and the same
/// where no two scores are equal.
pub proof fn law_an_opened_index_answers_alike<F>(
    disk: Disk,
    state: IndexState,
    opening: OpeningState,
    opened: IndexState,
    ask: F,
    score: spec_fn(Seq<u8>) -> u32,
    k: usize,
    top: Seq<Hit>,
    opened_top: Seq<Hit>,
) where F: Fn(&IdMapIndex, usize) -> Vec<Hit>
    requires
        state.consistent(),
        state.sealed.len() <= i64::MAX,
        commits(disk, state),
        has_read(opening, recover(disk)->0),
        opening.opens_as(opened),
        opened.well_formed(),
        all_scored(state, score),
        ranks_by(ask, state, score, k),
        ranks_by(ask, opened, score, k),
        finds(ask, state.segments(), k, top),
        finds(ask, opened.segments(), k, opened_top),
    ensures
        alike(top, opened_top),
        no_ties(state.ids(), scores_of(state, score)) ==> top == opened_top,
{
    law_opening_gives_the_index_back(disk, state, opening, opened);
    law_cutting_into_segments_does_not_show(state, opened, ask, score, k, top, opened_top);
}

/// The next batch is sealed in the opened index exactly where it is sealed in the
/// committed one.
pub proof fn law_an_opened_index_seals_alike(
    disk: Disk,
    state: IndexState,
    opening: OpeningState,
    opened: IndexState,
    ids: Seq<u64>,
    hot: IdMapIndex,
    after: IndexState,
    opened_hot: IdMapIndex,
    opened_after: IndexState,
)
    requires
        state.consistent(),
        state.sealed.len() <= i64::MAX,
        state.max_hot >= 1,
        commits(disk, state),
        has_read(opening, recover(disk)->0),
        opening.opens_as(opened),
        opened.well_formed(),
        forall|i: int| !#[trigger] is_taken(state.owner, ids, i),
        takes_in(state.hot, ids, hot),
        state.added_as(hot, ids, after),
        takes_in(opened.hot, ids, opened_hot),
        opened.added_as(opened_hot, ids, opened_after),
    ensures
        opened_after.sealed.len() == after.sealed.len(),
{
    law_opening_gives_the_index_back(disk, state, opening, opened);
    let last = state.sealed.len() as int;
    assert(opened.segments()[last] == opened.hot && state.segments()[last] == state.hot);
    law_add_seals_at_the_cap(state, hot, ids, after);
    law_add_seals_at_the_cap(opened, opened_hot, ids, opened_after);
}

/// Directories, each under its path.
pub type Directories = Map<Seq<char>, Disk>;

/// What the directory at `path` holds: nothing where there is none.
pub open spec fn disk_at(dirs: Directories, path: Seq<char>) -> Disk {
    if dirs.contains_key(path) {
        dirs[path]
    } else {
        Map::empty()
    }
}

/// The directories once the files of a sync have been written to the one at `path`.
pub open spec fn with_files_at(
    dirs: Directories,
    path: Seq<char>,
    trace: Seq<(Seq<char>, FileBody)>,
) -> Directories {
    dirs.insert(path, with_files(disk_at(dirs, path), trace))
}

/// Saving to another directory leaves the store that the index came from as it was:
/// opening that one still finds the generation that was committed there last, while the
/// other directory gets the index as it is now, whatever it held. This holds where the
/// files of a sync go to the directory that it was begun for. A save that is interrupted
/// in a directory that holds a store is not covered: the files of that store are
/// overwritten before its pointer is.
pub proof fn law_saving_elsewhere_leaves_the_old_store(
    dirs: Directories,
    old_path: Seq<char>,
    committed: IndexState,
    path: Seq<char>,
    state: IndexState,
    trace: Seq<(Seq<char>, FileBody)>,
)
    requires
        old_path != path,
        commits(disk_at(dirs, old_path), committed),
        state.consistent(),
        is_trace(attached_to(state, false), SyncRun { generation: 1, phase: Phase::Images }, trace),
        after_writes(
            attached_to(state, false),
            SyncRun { generation: 1, phase: Phase::Images },
            trace.len(),
        ).1.phase == Phase::Done,
    ensures
        disk_at(with_files_at(dirs, path, trace), old_path) == disk_at(dirs, old_path),
        commits(disk_at(with_files_at(dirs, path, trace), old_path), committed),
        commits(
            disk_at(with_files_at(dirs, path, trace), path),
            after_writes(
                attached_to(state, false),
                SyncRun { generation: 1, phase: Phase::Images },
                trace.len(),
            ).0,
        ),
        after_writes(
            attached_to(state, false),
            SyncRun { generation: 1, phase: Phase::Images },
            trace.len(),
        ).0.vectors() == state.vectors(),
{
    law_a_full_copy_goes_anywhere(disk_at(dirs, path), state, trace);
}

/// Saving to the directory that already backs the index changes nothing of it, and the
/// directory goes on backing it.
pub proof fn law_saving_to_the_same_directory_changes_nothing(disk: Disk, state: IndexState)
    requires
        state.attached,
    ensures
        attached_to(state, true) == state,
        backs(disk, state) ==> backs(disk, attached_to(state, true)),
{
}

/// Saving anywhere else, or for the first time, attaches the index, starts at no
/// generation and leaves every sealed segment to be written. What it holds, who owns what
/// and the recorded deletes stay as they are.
pub proof fn law_saving_elsewhere_starts_over(state: IndexState, same_dir: bool)
    requires
        !(state.attached && same_dir),
    ensures
        attached_to(state, same_dir).attached,
        attached_to(state, same_dir).generation == 0,
        attached_to(state, same_dir).seg_files.len() == state.seg_files.len(),
        forall|i: int|
            0 <= i < state.seg_files.len() ==> (#[trigger] attached_to(
                state,
                same_dir,
            ).seg_files[i]) is None,
        attached_to(state, same_dir).dim == state.dim,
        attached_to(state, same_dir).bit_width == state.bit_width,
        attached_to(state, same_dir).max_hot == state.max_hot,
        attached_to(state, same_dir).sealed == state.sealed,
        attached_to(state, same_dir).hot == state.hot,
        attached_to(state, same_dir).owner == state.owner,
        attached_to(state, same_dir).hot_ids == state.hot_ids,
        attached_to(state, same_dir).tombstones == state.tombstones,
{
}

/// What a sync writes next. As long as a sealed segment has no file, it is the image of
/// the first such segment; then that of the hot segment, then the manifest, and the pointer
/// to the manifest only when every segment has its file.
pub proof fn law_what_is_written_next(
    state: IndexState,
    run: SyncRun,
    name: Seq<char>,
    body: FileBody,
)
    requires
        in_run(state, run),
        is_due(state, run, name, body),
    ensures
        match body {
            FileBody::Image(bytes) => {
                ||| {
                    &&& name == hot_name(run.generation as nat)
                    &&& image_content(bytes) == Some(
                        (index_shape(state.hot), index_vectors(state.hot)),
                    )
                    &&& forall|i: int|
                        0 <= i < state.seg_files.len() ==> (#[trigger] state.seg_files[i]) is Some
                }
                ||| exists|i: int|
                    {
                        &&& 0 <= i < state.seg_files.len()
                        &&& (#[trigger] state.seg_files[i]) is None
                        &&& forall|j: int| 0 <= j < i ==> (#[trigger] state.seg_files[j]) is Some
                        &&& name == segment_name(i as nat)
                        &&& image_content(bytes) == Some(
                            (index_shape(state.sealed[i]), index_vectors(state.sealed[i])),
                        )
                    }
            },
            FileBody::Manifest(m) => {
                &&& name == manifest_name(run.generation as nat)
                &&& m.hot_file == hot_name(run.generation as nat)
                &&& m.seg_files.len() == state.sealed.len()
                &&& forall|i: int|
                    0 <= i < state.seg_files.len() ==> state.seg_files[i] == Some(
                        #[trigger] m.seg_files[i],
                    )
            },
            FileBody::Pointer(text) => {
                &&& name == current_name()
                &&& text == manifest_name(run.generation as nat)
                &&& forall|i: int|
                    0 <= i < state.seg_files.len() ==> (#[trigger] state.seg_files[i]) is Some
            },
        },
{
    if run.phase == Phase::Images && !all_saved(state.seg_files) {
        lemma_first_unsaved(state.seg_files);
        let i = first_unsaved(state.seg_files);
        assert(state.seg_files[i] is None);
    }
}

/// A sync changes nothing of an index but which files hold it and, at its end, the
/// generation. A sealed segment that has a file keeps it; one that had none has it
/// under its own name. Once the sync is done each has one, and the generation is the one
/// that the sync was begun for.
pub proof fn law_a_sync_changes_only_the_files(state: IndexState, run: SyncRun, n: nat)
    requires
        in_run(state, run),
        run.phase != Phase::Done,
    ensures
        after_writes(state, run, n).0 == (IndexState {
            generation: after_writes(state, run, n).0.generation,
            seg_files: after_writes(state, run, n).0.seg_files,
            ..state
        }),
        after_writes(state, run, n).0.generation == if after_writes(state, run, n).1.phase
            == Phase::Done {
            run.generation
        } else {
            state.generation
        },
        after_writes(state, run, n).0.seg_files.len() == state.seg_files.len(),
        forall|i: int|
            0 <= i < state.seg_files.len() && state.seg_files[i] is Some
                ==> #[trigger] after_writes(state, run, n).0.seg_files[i] == state.seg_files[i],
        forall|i: int|
            0 <= i < state.seg_files.len() && state.seg_files[i] is None && (
            #[trigger] after_writes(state, run, n).0.seg_files[i]) is Some ==> after_writes(
                state,
                run,
                n,
            ).0.seg_files[i] == Some(segment_name(i as nat)),
        after_writes(state, run, n).1.phase == Phase::Done ==> forall|i: int|
            0 <= i < state.seg_files.len() ==> (#[trigger] after_writes(
                state,
                run,
                n,
            ).0.seg_files[i]) is Some,
    decreases n,
{
    if n > 0 {
        let (next, step) = after_write(state, run);
        if run.phase == Phase::Images && !all_saved(state.seg_files) {
            lemma_first_unsaved(state.seg_files);
        }
        if step.phase == Phase::Done {
            lemma_done_stays_done(next, step, (n - 1) as nat);
        } else {
            law_a_sync_changes_only_the_files(next, step, (n - 1) as nat);
        }
    }
}

proof fn lemma_done_stays_done(state: IndexState, run: SyncRun, n: nat)
    requires
        run.phase == Phase::Done,
    ensures
        after_writes(state, run, n) == (state, run),
    decreases n,
{
    if n > 0 {
        lemma_done_stays_done(state, run, (n - 1) as nat);
    }
}

/// A load after a save gives back the index that was saved, whether it was saved to the
/// directory that backed it or to any other: the same vectors under the same ids, cut into
/// the same segments, the same deletes, in the generation that follows the last one there.
pub proof fn law_a_load_after_a_save_gives_the_index_back(
    disk: Disk,
    state: IndexState,
    same_dir: bool,
    trace: Seq<(Seq<char>, FileBody)>,
    opening: OpeningState,
    opened: IndexState,
)
    requires
        state.consistent(),
        state.sealed.len() <= i64::MAX,
        state.attached && same_dir ==> backs(disk, state) && state.generation < u64::MAX,
        is_trace(
            attached_to(state, same_dir),
            SyncRun {
                generation: (attached_to(state, same_dir).generation + 1) as u64,
                phase: Phase::Images,
            },
            trace,
        ),
        after_writes(
            attached_to(state, same_dir),
            SyncRun {
                generation: (attached_to(state, same_dir).generation + 1) as u64,
                phase: Phase::Images,
            },
            trace.len(),
        ).1.phase == Phase::Done,
        has_read(opening, recover(with_files(disk, trace))->0),
        opening.opens_as(opened),
        opened.well_formed(),
    ensures
        recover(with_files(disk, trace)) is Some,
        backs(with_files(disk, trace), opened),
        opened.consistent(),
        opened.vectors() == state.vectors(),
        opened.owner == state.owner,
        opened.hot_ids == state.hot_ids,
        opened.tombstones == state.tombstones,
        opened.dim == state.dim,
        opened.bit_width == state.bit_width,
        opened.max_hot == state.max_hot,
        opened.attached,
        opened.generation == if state.attached && same_dir {
            state.generation + 1
        } else {
            1
        },
        opened.sealed.len() == state.sealed.len(),
        forall|i: int|
            0 <= i < state.sealed.len() ==> index_vectors(#[trigger] opened.sealed[i])
                == index_vectors(state.sealed[i]),
        index_vectors(opened.hot) == index_vectors(state.hot),
{
    let rooted = attached_to(state, same_dir);
    let run = SyncRun { generation: (rooted.generation + 1) as u64, phase: Phase::Images };
    let end = after_writes(rooted, run, trace.len()).0;
    let after = with_files(disk, trace);
    law_soundness_does_not_rest_on_files(state, rooted);
    law_a_finished_sync_commits(disk, rooted, run, trace);
    law_a_sync_changes_only_the_files(rooted, run, trace.len());
    law_opening_gives_the_index_back(after, end, opening, opened);
    assert forall|i: int| 0 <= i < state.sealed.len() implies index_vectors(
        #[trigger] opened.sealed[i],
    ) == index_vectors(state.sealed[i]) by {
        assert(index_content(opened.segments()[i]) == index_content(end.segments()[i]));
    }
    let last = state.sealed.len() as int;
    assert(index_content(opened.segments()[last]) == index_content(end.segments()[last]));
}

/// A save to the directory that backs the index is as atomic as any sync. However many of
/// its writes took place, opening the store finds the generation that was committed
/// before, until the last one; from then on it finds the index as it was saved.
pub proof fn law_a_save_is_atomic(
    disk: Disk,
    state: IndexState,
    trace: Seq<(Seq<char>, FileBody)>,
)
    requires
        state.consistent(),
        backs(disk, state),
        state.generation < u64::MAX,
        is_trace(
            attached_to(state, true),
            SyncRun { generation: (state.generation + 1) as u64, phase: Phase::Images },
            trace,
        ),
    ensures
        ({
            let (end, run) = after_writes(
                attached_to(state, true),
                SyncRun { generation: (state.generation + 1) as u64, phase: Phase::Images },
                trace.len(),
            );
            &&& run.phase != Phase::Done ==> recover(with_files(disk, trace)) == recover(disk)
            &&& run.phase == Phase::Done ==> commits(with_files(disk, trace), end)
            &&& backs(with_files(disk, trace), end)
            &&& end.consistent()
            &&& end.vectors() == state.vectors()
            &&& end.tombstones == state.tombstones
        }),
{
    let run = SyncRun { generation: (state.generation + 1) as u64, phase: Phase::Images };
    law_a_sync_is_atomic(disk, attached_to(state, true), run, trace);
    law_a_sync_changes_only_the_files(attached_to(state, true), run, trace.len());
}

} // verus!
