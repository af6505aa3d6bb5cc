use std::collections::HashMap;

use turbovec::IdMapIndex;
use turbovec_pg_engine::manifest::Manifest;
use turbovec_pg_engine::names::{active_manifest, superseded};
use turbovec_pg_engine::score::Hit;
use turbovec_pg_engine::segment::opening::{OpenError, Opening, SupplyError};
use turbovec_pg_engine::segment::store::{FileWrite, Phase, SyncError, SyncRun};
use turbovec_pg_engine::state::AddError;
use turbovec_pg_engine::SegmentedIndex;

/// Deterministic pseudo-random vectors, small in magnitude, as a flat buffer.
fn gen(n: usize, dim: usize, seed: u64) -> Vec<f32> {
    let mut v = vec![0.0f32; n * dim];
    let mut s = seed.wrapping_add(0x9E3779B97F4A7C15);
    for x in v.iter_mut() {
        s = s.wrapping_add(0x9E3779B97F4A7C15);
        let mut z = s;
        z = (z ^ (z >> 30)).wrapping_mul(0xBF58476D1CE4E5B9);
        z = (z ^ (z >> 27)).wrapping_mul(0x94D049BB133111EB);
        z ^= z >> 31;
        *x = (z as f32 / u64::MAX as f32) * 2.0 - 1.0;
    }
    v
}

fn add(
    idx: &mut SegmentedIndex,
    vectors: &[f32],
    ids: &[u64],
) -> Result<(), AddError<turbovec::AddError>> {
    idx.add(vectors.len(), ids, |hot: &mut IdMapIndex, dim: usize, ids: &[u64]| {
        hot.add_with_ids_2d(vectors, dim, ids)
    })
}

fn search(idx: &SegmentedIndex, query: &[f32], k: usize) -> Vec<Hit> {
    assert_eq!(query.len(), idx.dim());
    idx.search(query.len(), k, |seg: &IdMapIndex, k: usize| {
        let (scores, ids) = seg.search(query, k);
        ids.into_iter().zip(scores.into_iter().map(f32::to_bits)).collect()
    })
}

fn found(idx: &SegmentedIndex, query: &[f32], k: usize) -> Vec<u64> {
    search(idx, query, k).iter().map(|(id, _)| *id).collect()
}

/// A file of a directory that is kept in memory.
enum File {
    Bytes(Vec<u8>),
    Manifest(Manifest),
    Text(String),
}

type Dir = HashMap<String, File>;

fn copy(m: &Manifest) -> Manifest {
    Manifest {
        format: m.format,
        dim: m.dim,
        bit_width: m.bit_width,
        max_hot: m.max_hot,
        n_sealed: m.n_sealed,
        seg_files: m.seg_files.clone(),
        hot_file: m.hot_file.clone(),
        owner_ids: m.owner_ids.clone(),
        owner_seg: m.owner_seg.clone(),
        tombstone_ids: m.tombstone_ids.clone(),
        tombstone_seg: m.tombstone_seg.clone(),
    }
}

/// Perform one write of a sync; `false` where there is none left. Returns the name of
/// the file through `names`.
fn step(dir: &mut Dir, idx: &mut SegmentedIndex, run: &mut SyncRun, names: &mut Vec<String>) -> bool {
    let Some(file) = idx.next_write(run) else {
        return false;
    };
    let (name, body) = match file {
        FileWrite::Image { name, bytes } => (name, File::Bytes(bytes)),
        FileWrite::Manifest { name, manifest } => (name, File::Manifest(manifest)),
        FileWrite::Pointer { name, target } => (name, File::Text(target)),
    };
    names.push(name.clone());
    dir.insert(name, body);
    idx.written(run);
    true
}

fn finish(dir: &mut Dir, idx: &mut SegmentedIndex, mut run: SyncRun) -> Vec<String> {
    let mut names = Vec::new();
    while step(dir, idx, &mut run, &mut names) {}
    assert_eq!(run.phase, Phase::Done);
    dir.retain(|name, _| !superseded(name, run.generation));
    names
}

fn save(dir: &mut Dir, idx: &mut SegmentedIndex, same_dir: bool) -> Vec<String> {
    let run = idx.save(same_dir);
    finish(dir, idx, run)
}

fn open(dir: &Dir) -> SegmentedIndex {
    read(dir, SegmentedIndex::open)
}

fn load(dir: &Dir) -> SegmentedIndex {
    read(dir, SegmentedIndex::load)
}

fn read(dir: &Dir, begin: fn(&str, Manifest) -> Result<Opening, OpenError>) -> SegmentedIndex {
    let Some(File::Text(current)) = dir.get("CURRENT") else {
        panic!("no pointer");
    };
    let name = active_manifest(current);
    let Some(File::Manifest(manifest)) = dir.get(&name) else {
        panic!("no manifest");
    };
    let mut opening = begin(&name, copy(manifest)).unwrap();
    while let Some(file) = opening.next_file() {
        let Some(File::Bytes(bytes)) = dir.get(&file) else {
            panic!("no file {file}");
        };
        opening.supply(bytes).unwrap();
    }
    opening.finish()
}

fn bytes_of(dir: &Dir, name: &str) -> Vec<u8> {
    match dir.get(name) {
        Some(File::Bytes(bytes)) => bytes.clone(),
        _ => panic!("no image {name}"),
    }
}

#[test]
fn save_load_round_trip_preserves_results() {
    let dim = 64;
    let n = 150;
    let vecs = gen(n, dim, 5);
    let ids: Vec<u64> = (1000..1000 + n as u64).collect();
    let mut idx = SegmentedIndex::new(dim, 4, 40).unwrap();
    add(&mut idx, &vecs, &ids).unwrap();
    idx.remove(1005); // exercise a removed slot through save

    let mut dir = Dir::new();
    save(&mut dir, &mut idx, false);
    let reloaded = load(&dir);

    assert_eq!(reloaded.len(), idx.len());
    assert_eq!(reloaded.n_sealed(), idx.n_sealed());

    let queries = gen(8, dim, 77);
    for q in 0..8 {
        let query = &queries[q * dim..(q + 1) * dim];
        let a_ids = found(&idx, query, 7);
        let b_ids = found(&reloaded, query, 7);
        assert_eq!(a_ids, b_ids, "query {q}: result order changed after reload");
    }
}

#[test]
fn durable_sync_open_round_trip() {
    let dim = 64;
    let n = 150;
    let vecs = gen(n, dim, 5);
    let ids: Vec<u64> = (1000..1000 + n as u64).collect();
    let mut idx = SegmentedIndex::new(dim, 4, 40).unwrap();
    add(&mut idx, &vecs, &ids).unwrap();

    let mut dir = Dir::new();
    save(&mut dir, &mut idx, false);
    assert_eq!(idx.generation(), 1);

    let reopened = open(&dir);
    assert_eq!(reopened.len(), idx.len());
    assert_eq!(reopened.n_sealed(), idx.n_sealed());
    assert_eq!(reopened.generation(), 1);

    let queries = gen(8, dim, 77);
    for q in 0..8 {
        let query = &queries[q * dim..(q + 1) * dim];
        let a = found(&idx, query, 7);
        let b = found(&reopened, query, 7);
        assert_eq!(a, b, "query {q}: result order changed after reopen");
    }
}

#[test]
fn durable_sync_is_incremental_and_write_once() {
    let dim = 64;
    let mut idx = SegmentedIndex::new(dim, 4, 32).unwrap();
    let vecs = gen(80, dim, 31);
    let ids: Vec<u64> = (0..80).collect();
    for cs in (0..80).step_by(20) {
        add(&mut idx, &vecs[cs * dim..(cs + 20) * dim], &ids[cs..cs + 20]).unwrap();
    }
    assert_eq!(idx.n_sealed(), 2);

    let mut dir = Dir::new();
    save(&mut dir, &mut idx, false);
    assert_eq!(idx.generation(), 1);
    let seg0_bytes = bytes_of(&dir, "seg-00000000.tvim");

    // Add a third sealed segment, then sync incrementally to the same directory.
    let more = gen(40, dim, 32);
    let more_ids: Vec<u64> = (80..120).collect();
    for cs in (0..40).step_by(20) {
        add(&mut idx, &more[cs * dim..(cs + 20) * dim], &more_ids[cs..cs + 20]).unwrap();
    }
    assert_eq!(idx.n_sealed(), 3);
    let names = save(&mut dir, &mut idx, true);
    assert_eq!(idx.generation(), 2);

    // Write-once: the first sealed segment's file is byte-identical.
    assert_eq!(bytes_of(&dir, "seg-00000000.tvim"), seg0_bytes, "seg-0 was rewritten");
    assert_eq!(
        names,
        ["seg-00000002.tvim", "hot-00000002.tvim", "MANIFEST-00000002", "CURRENT"]
    );
    // The new sealed segment was written.
    assert!(dir.contains_key("seg-00000002.tvim"));
    // The superseded generation's hot snapshot and manifest were collected.
    assert!(!dir.contains_key("hot-00000001.tvim"));
    assert!(!dir.contains_key("MANIFEST-00000001"));
    assert!(dir.contains_key("MANIFEST-00000002"));

    let reopened = open(&dir);
    assert_eq!(reopened.len(), 120);
}

#[test]
fn durable_delete_survives_reopen() {
    let dim = 64;
    let n = 90;
    let vecs = gen(n, dim, 21);
    let ids: Vec<u64> = (0..n as u64).collect();
    let mut idx = SegmentedIndex::new(dim, 4, 32).unwrap();
    for cs in (0..n).step_by(20) {
        let e = (cs + 20).min(n);
        add(&mut idx, &vecs[cs * dim..e * dim], &ids[cs..e]).unwrap();
    }
    assert!(idx.n_sealed() >= 1);
    assert!(idx.remove(5)); // id 5 lives in a sealed segment

    let mut dir = Dir::new();
    save(&mut dir, &mut idx, false);

    let reopened = open(&dir);
    assert_eq!(reopened.len(), n - 1);
    assert!(!reopened.contains(5));
    // The delete was re-applied: id 5 never resurfaces, even queried with its own
    // vector.
    let q5 = &vecs[5 * dim..6 * dim];
    assert!(search(&reopened, q5, 10).iter().all(|(id, _)| *id != 5));
}

#[test]
fn durable_atomic_commit_ignores_uncommitted_generation() {
    let dim = 64;
    let n = 80;
    let vecs = gen(n, dim, 11);
    let ids: Vec<u64> = (0..n as u64).collect();
    let mut idx = SegmentedIndex::new(dim, 4, 32).unwrap();
    for cs in (0..n).step_by(20) {
        add(&mut idx, &vecs[cs * dim..(cs + 20) * dim], &ids[cs..cs + 20]).unwrap();
    }
    let mut dir = Dir::new();
    save(&mut dir, &mut idx, false); // commits generation 1

    // A crash partway through the NEXT sync: new-generation files exist, but CURRENT
    // was never flipped to point at them.
    dir.insert("MANIFEST-00000002".to_string(), File::Bytes(b"{ not valid json".to_vec()));
    dir.insert("CURRENT.tmp".to_string(), File::Text("MANIFEST-00000002".to_string()));
    dir.insert("hot-00000002.tvim.tmp".to_string(), File::Bytes(b"garbage".to_vec()));

    // Opening must still load the last COMMITTED generation (1).
    let reopened = open(&dir);
    assert_eq!(reopened.generation(), 1);
    assert_eq!(reopened.len(), idx.len());
    let q = &vecs[7 * dim..8 * dim];
    assert_eq!(found(&idx, q, 5), found(&reopened, q, 5));
}

#[test]
fn durable_reopen_continues_incrementally() {
    // Two backends sharing one store: handle A creates and commits; handle B opens,
    // appends, commits; handle C sees both.
    let dim = 64;
    let mut dir = Dir::new();

    {
        let mut a = SegmentedIndex::new(dim, 4, 32).unwrap();
        let v = gen(50, dim, 41);
        let ids: Vec<u64> = (0..50).collect();
        add(&mut a, &v, &ids).unwrap();
        save(&mut dir, &mut a, false);
    }

    let v2 = gen(30, dim, 42);
    let ids2: Vec<u64> = (50..80).collect();
    {
        let mut b = open(&dir);
        assert_eq!(b.len(), 50);
        add(&mut b, &v2, &ids2).unwrap();
        let run = b.sync().unwrap();
        finish(&mut dir, &mut b, run);
    }

    let c = open(&dir);
    assert_eq!(c.len(), 80);
    // A vector committed by the second handle is retrievable.
    let q = &v2[0..dim];
    assert!(search(&c, q, 80).iter().any(|(id, _)| *id == 50));
}

#[test]
fn a_delete_from_a_written_segment_survives_reopen() {
    let vecs = gen(6, 8, 3);
    let mut idx = SegmentedIndex::new(8, 4, 4).unwrap();
    add(&mut idx, &vecs[..32], &[1, 2, 3, 4]).unwrap();
    let mut dir = Dir::new();
    save(&mut dir, &mut idx, false);
    let seg0 = bytes_of(&dir, "seg-00000000.tvim");

    // The file is written; a later delete must not rewrite it.
    assert!(idx.remove(2));
    add(&mut idx, &vecs[32..], &[5, 6]).unwrap();
    save(&mut dir, &mut idx, true);
    assert_eq!(bytes_of(&dir, "seg-00000000.tvim"), seg0);
    assert_eq!(IdMapIndex::from_bytes(&seg0).unwrap().len(), 4);

    let reopened = open(&dir);
    assert_eq!(reopened.len(), 5);
    let mut ids = found(&reopened, &vecs[8..16], 10);
    ids.sort_unstable();
    assert_eq!(ids, vec![1, 3, 4, 5, 6]);
}

#[test]
fn a_sync_that_stops_anywhere_leaves_the_last_generation() {
    let vecs = gen(12, 8, 3);
    let ids: Vec<u64> = (0..12).collect();
    for stop in 0..5 {
        let mut idx = SegmentedIndex::new(8, 4, 4).unwrap();
        add(&mut idx, &vecs[..32], &ids[..4]).unwrap();
        let mut dir = Dir::new();
        save(&mut dir, &mut idx, false);

        add(&mut idx, &vecs[32..64], &ids[4..8]).unwrap();
        add(&mut idx, &vecs[64..80], &ids[8..10]).unwrap();
        assert!(idx.remove(1));
        let mut run = idx.sync().unwrap();
        let mut names = Vec::new();
        for _ in 0..stop {
            step(&mut dir, &mut idx, &mut run, &mut names);
        }
        let reopened = open(&dir);
        if stop < 4 {
            assert_eq!((reopened.generation(), reopened.len()), (1, 4), "after {stop} writes");
            assert!(reopened.contains(1));
        } else {
            assert_eq!((reopened.generation(), reopened.len()), (2, 9), "after {stop} writes");
            assert!(!reopened.contains(1));
        }
        // A later sync goes on from what is in place.
        if stop < 4 {
            let run = idx.sync().unwrap();
            finish(&mut dir, &mut idx, run);
            let again = open(&dir);
            assert_eq!((again.generation(), again.len()), (2, 9));
        }
    }
}

#[test]
fn a_detached_index_cannot_sync() {
    let mut idx = SegmentedIndex::new(8, 4, 4).unwrap();
    assert_eq!(idx.sync(), Err(SyncError::Detached));
    let run = idx.save(true);
    assert_eq!(run, SyncRun { generation: 1, phase: Phase::Images });
    assert_eq!(idx.sync(), Ok(run));
}

#[test]
fn another_directory_gets_a_full_copy() {
    let vecs = gen(5, 8, 3);
    let mut idx = SegmentedIndex::new(8, 4, 2).unwrap();
    add(&mut idx, &vecs[..16], &[1, 2]).unwrap();
    add(&mut idx, &vecs[16..32], &[3, 4]).unwrap();
    add(&mut idx, &vecs[32..], &[5]).unwrap();
    let mut first = Dir::new();
    save(&mut first, &mut idx, false);
    save(&mut first, &mut idx, true);
    assert_eq!(idx.generation(), 2);

    let mut second = Dir::new();
    let names = save(&mut second, &mut idx, false);
    assert_eq!(idx.generation(), 1);
    assert_eq!(
        names,
        [
            "seg-00000000.tvim",
            "seg-00000001.tvim",
            "hot-00000001.tvim",
            "MANIFEST-00000001",
            "CURRENT",
        ]
    );
    assert_eq!(open(&second).len(), 5);
    assert_eq!(open(&first).generation(), 2);
}

#[test]
fn the_manifest_lists_the_bookkeeping() {
    let vecs = gen(3, 8, 3);
    let mut idx = SegmentedIndex::new(8, 3, 2).unwrap();
    add(&mut idx, &vecs[..16], &[10, 20]).unwrap();
    add(&mut idx, &vecs[16..], &[30]).unwrap();
    assert!(idx.remove(20));
    let mut dir = Dir::new();
    save(&mut dir, &mut idx, false);
    let Some(File::Manifest(m)) = dir.get("MANIFEST-00000001") else {
        panic!("no manifest");
    };
    assert_eq!((m.format, m.dim, m.bit_width, m.max_hot, m.n_sealed), (2, 8, 3, 2, 1));
    assert_eq!(m.seg_files, ["seg-00000000.tvim"]);
    assert_eq!(m.hot_file, "hot-00000001.tvim");
    let mut owners: Vec<(u64, i64)> =
        m.owner_ids.iter().copied().zip(m.owner_seg.iter().copied()).collect();
    owners.sort_unstable();
    assert_eq!(owners, [(10, 0), (30, -1)]);
    assert_eq!((m.tombstone_ids.clone(), m.tombstone_seg.clone()), (vec![20], vec![0]));
}

fn tiny_manifest() -> Manifest {
    Manifest {
        format: 2,
        dim: 8,
        bit_width: 4,
        max_hot: 4,
        n_sealed: 0,
        seg_files: Vec::new(),
        hot_file: "hot-00000001.tvim".to_string(),
        owner_ids: Vec::new(),
        owner_seg: Vec::new(),
        tombstone_ids: Vec::new(),
        tombstone_seg: Vec::new(),
    }
}

#[test]
fn a_manifest_of_another_shape_is_refused() {
    let mut m = tiny_manifest();
    m.format = 3;
    m.n_sealed = 1;
    assert!(matches!(
        SegmentedIndex::open("MANIFEST-00000001", m),
        Err(OpenError::UnsupportedFormat(3))
    ));
}

#[test]
fn a_manifest_with_a_file_missing_is_refused() {
    let mut m = tiny_manifest();
    m.n_sealed = 1;
    assert!(matches!(
        SegmentedIndex::load("MANIFEST-00000001", m),
        Err(OpenError::SegFilesMismatch)
    ));
}

#[test]
fn bytes_that_are_no_image_are_refused() {
    let mut opening = SegmentedIndex::open("MANIFEST-00000001", tiny_manifest()).unwrap();
    assert_eq!(opening.next_file(), Some("hot-00000001.tvim".to_string()));
    assert!(matches!(opening.supply(b"garbage"), Err(SupplyError::NotAnImage(_))));
    // The same file is still asked for.
    assert_eq!(opening.next_file(), Some("hot-00000001.tvim".to_string()));
    let image = IdMapIndex::new(8, 4).unwrap().to_bytes();
    opening.supply(&image).unwrap();
    assert_eq!(opening.next_file(), None);
    let idx = opening.finish();
    assert_eq!((idx.len(), idx.generation(), idx.n_sealed()), (0, 1, 0));
}

#[test]
fn a_manifest_may_name_what_does_not_exist() {
    let mut m = tiny_manifest();
    m.dim = 12;
    m.owner_ids = vec![1, 2, 1, 9];
    m.owner_seg = vec![-1, 4, 7];
    m.tombstone_ids = vec![5];
    m.tombstone_seg = vec![3];
    let mut opening = SegmentedIndex::open("elsewhere", m).unwrap();
    opening.supply(&IdMapIndex::new(8, 4).unwrap().to_bytes()).unwrap();
    let idx = opening.finish();
    // The lists end with the shorter one, and a later entry replaces an earlier one.
    assert_eq!((idx.len(), idx.generation()), (2, 0));
    assert!(!idx.routes(1) && !idx.routes(2) && idx.routes(9));
    assert!(!idx.sealable());
}

#[test]
fn saving_elsewhere_leaves_the_old_store() {
    let vecs = gen(6, 8, 3);
    let mut idx = SegmentedIndex::new(8, 4, 2).unwrap();
    add(&mut idx, &vecs[..24], &[1, 2, 3]).unwrap();
    let mut first = Dir::new();
    save(&mut first, &mut idx, false);

    assert!(idx.remove(2));
    add(&mut idx, &vecs[24..], &[4, 5, 6]).unwrap();
    let mut second = Dir::new();
    save(&mut second, &mut idx, false);

    let old = open(&first);
    assert_eq!((old.generation(), old.len()), (1, 3));
    assert!(old.contains(2) && !old.contains(4));
    let new = open(&second);
    assert_eq!((new.generation(), new.len()), (1, 5));
    assert!(!new.contains(2) && new.contains(4));
}

#[test]
fn an_opened_index_seals_as_the_committed_one() {
    let vecs = gen(6, 8, 3);
    let mut idx = SegmentedIndex::new(8, 4, 5).unwrap();
    add(&mut idx, &vecs[..24], &[1, 2, 3]).unwrap();
    let mut dir = Dir::new();
    save(&mut dir, &mut idx, false);
    let mut opened = open(&dir);
    for i in 3..6 {
        let v = &vecs[i * 8..(i + 1) * 8];
        add(&mut idx, v, &[i as u64 + 1]).unwrap();
        add(&mut opened, v, &[i as u64 + 1]).unwrap();
        assert_eq!(idx.n_sealed(), opened.n_sealed());
        assert_eq!(search(&idx, v, 6), search(&opened, v, 6));
    }
    assert_eq!((idx.max_hot(), opened.max_hot(), opened.n_sealed()), (5, 5, 1));
}

#[test]
fn an_id_that_comes_back_is_not_deleted_again() {
    let vecs = gen(3, 8, 3);
    let mut idx = SegmentedIndex::new(8, 4, 1).unwrap();
    add(&mut idx, &vecs[..8], &[9]).unwrap();
    assert!(idx.remove(9));
    add(&mut idx, &vecs[8..16], &[9]).unwrap();
    let mut dir = Dir::new();
    save(&mut dir, &mut idx, false);
    let Some(File::Manifest(m)) = dir.get("MANIFEST-00000001") else {
        panic!("no manifest");
    };
    assert_eq!((m.owner_ids.clone(), m.owner_seg.clone()), (vec![9], vec![1]));
    assert_eq!((m.tombstone_ids.clone(), m.tombstone_seg.clone()), (vec![9], vec![0]));
    let opened = open(&dir);
    assert_eq!(found(&opened, &vecs[8..16], 4), vec![9]);
}

#[test]
fn an_index_that_cannot_seal_still_adds_below_its_cap() {
    // The bit width of this manifest is one that no new index can have.
    let mut m = tiny_manifest();
    m.bit_width = 7;
    let mut opening = SegmentedIndex::open("MANIFEST-00000001", m).unwrap();
    opening.supply(&IdMapIndex::new(8, 4).unwrap().to_bytes()).unwrap();
    let mut idx = opening.finish();
    assert!(!idx.sealable());
    add(&mut idx, &gen(3, 8, 1), &[1, 2, 3]).unwrap();
    assert_eq!((idx.len(), idx.n_sealed()), (3, 0));
    assert!(matches!(
        add(&mut idx, &gen(1, 8, 2), &[3]),
        Err(AddError::IdAlreadyPresent(3))
    ));
}

#[test]
fn an_opened_segment_has_the_shape_that_was_stored() {
    // The hot segment is empty: its image carries nothing but its shape.
    let mut idx = SegmentedIndex::new(24, 3, 1).unwrap();
    add(&mut idx, &gen(1, 24, 8), &[1]).unwrap();
    let mut dir = Dir::new();
    save(&mut dir, &mut idx, false);
    let hot = IdMapIndex::from_bytes(&bytes_of(&dir, "hot-00000001.tvim")).unwrap();
    assert_eq!((hot.len(), hot.dim_opt(), hot.bit_width()), (0, Some(24), 3));
    let seg = IdMapIndex::from_bytes(&bytes_of(&dir, "seg-00000000.tvim")).unwrap();
    assert_eq!((seg.len(), seg.dim_opt(), seg.bit_width()), (1, Some(24), 3));

    let mut opened = open(&dir);
    opened
        .add(24, &[2], |hot: &mut IdMapIndex, dim: usize, ids: &[u64]| {
            assert_eq!((hot.dim_opt(), hot.bit_width()), (Some(24), 3));
            hot.add_with_ids_2d(&gen(1, 24, 9), dim, ids)
        })
        .unwrap();
    assert_eq!(opened.len(), 2);
}

#[test]
fn a_full_copy_goes_into_a_directory_that_held_another_store() {
    let mut dir = Dir::new();
    let mut other = SegmentedIndex::new(16, 2, 1).unwrap();
    for i in 0..3 {
        add(&mut other, &gen(1, 16, i), &[100 + i]).unwrap();
        save(&mut dir, &mut other, i > 0);
    }
    assert_eq!(open(&dir).generation(), 3);

    let vecs = gen(3, 8, 5);
    let mut idx = SegmentedIndex::new(8, 4, 2).unwrap();
    add(&mut idx, &vecs[..16], &[1, 2]).unwrap();
    add(&mut idx, &vecs[16..], &[3]).unwrap();
    save(&mut dir, &mut idx, false);

    let opened = open(&dir);
    assert_eq!((opened.generation(), opened.dim(), opened.len()), (1, 8, 3));
    assert!(!opened.contains(100));
    assert_eq!(found(&opened, &vecs[..8], 3), found(&idx, &vecs[..8], 3));
}
