use std::collections::HashSet;

use turbovec::IdMapIndex;
use turbovec_pg_engine::idmap::ConstructError;
use turbovec_pg_engine::score::Hit;
use turbovec_pg_engine::state::AddError;
use turbovec_pg_engine::SegmentedIndex;

/// Deterministic pseudo-random vectors, small in magnitude, as a flat buffer.
fn gen(n: usize, dim: usize, seed: u64) -> Vec<f32> {
    let mut v = vec![0.0f32; n * dim];
    let mut s = seed.wrapping_add(0x9E3779B97F4A7C15);
    for x in v.iter_mut() {
        s = s.wrapping_add(0x9E3779B97F4A7C15);
        let mut z = s;
        z = (z ^ (z >> 30)).wrapping_mul(0xBF58476D1CE4E5B9);
        z = (z ^ (z >> 27)).wrapping_mul(0x94D049BB133111EB);
        z ^= z >> 31;
        // Map to ~[-1, 1).
        *x = (z as f32 / u64::MAX as f32) * 2.0 - 1.0;
    }
    v
}

fn add(
    idx: &mut SegmentedIndex,
    vectors: &[f32],
    ids: &[u64],
) -> Result<(), AddError<turbovec::AddError>> {
    idx.add(vectors.len(), ids, |hot: &mut IdMapIndex, dim: usize, ids: &[u64]| {
        hot.add_with_ids_2d(vectors, dim, ids)
    })
}

fn hits((scores, ids): (Vec<f32>, Vec<u64>)) -> Vec<Hit> {
    ids.into_iter().zip(scores.into_iter().map(f32::to_bits)).collect()
}

fn scored(hits: Vec<Hit>) -> Vec<(u64, f32)> {
    hits.into_iter().map(|(id, bits)| (id, f32::from_bits(bits))).collect()
}

fn search(idx: &SegmentedIndex, query: &[f32], k: usize) -> Vec<(u64, f32)> {
    assert_eq!(query.len(), idx.dim());
    scored(idx.search(query.len(), k, |seg: &IdMapIndex, k: usize| hits(seg.search(query, k))))
}

fn search_with_allowlist(
    idx: &SegmentedIndex,
    query: &[f32],
    k: usize,
    allowed: &[u64],
) -> Vec<(u64, f32)> {
    assert_eq!(query.len(), idx.dim());
    scored(idx.search_with_allowlist(
        query.len(),
        k,
        allowed,
        |seg: &IdMapIndex, k: usize, ids: &[u64]| {
            hits(seg.search_with_allowlist(query, k, Some(ids)).unwrap())
        },
    ))
}

#[test]
fn sealing_counts_and_len_track_inserts() {
    let dim = 64;
    let mut idx = SegmentedIndex::new(dim, 4, 32).unwrap();
    let n = 200;
    let vecs = gen(n, dim, 1);
    let ids: Vec<u64> = (0..n as u64).collect();
    // Add in batches of 10 so sealing fires mid-stream.
    for chunk_start in (0..n).step_by(10) {
        let end = (chunk_start + 10).min(n);
        let vslice = &vecs[chunk_start * dim..end * dim];
        add(&mut idx, vslice, &ids[chunk_start..end]).unwrap();
    }
    assert_eq!(idx.len(), n);
    // Batches of 10 against a soft cap of 32 seal at ~40 vectors each, so 200
    // vectors produce 5 sealed segments.
    assert!(idx.n_sealed() >= 5, "got {} sealed", idx.n_sealed());
}

#[test]
fn rejects_duplicate_ids_globally_and_in_batch() {
    let dim = 64;
    let mut idx = SegmentedIndex::new(dim, 4, 8).unwrap();
    let vecs = gen(20, dim, 2);
    let ids: Vec<u64> = (0..20).collect();
    add(&mut idx, &vecs, &ids).unwrap();
    // Re-adding an id that was sealed into an earlier segment must fail.
    let one = gen(1, dim, 99);
    assert!(matches!(add(&mut idx, &one, &[3]), Err(AddError::IdAlreadyPresent(3))));
    // Duplicate within a single batch must fail too.
    let two = gen(2, dim, 7);
    assert!(matches!(
        add(&mut idx, &two, &[100, 100]),
        Err(AddError::IdAlreadyPresent(100))
    ));
    // Failed adds left the index untouched.
    assert_eq!(idx.len(), 20);
}

#[test]
fn matches_monolithic_idmap_topk() {
    // The decisive correctness test: a segmented index and a single monolithic
    // IdMapIndex over identical data must agree on results.
    let dim = 64;
    let n = 300;
    let vecs = gen(n, dim, 42);
    let ids: Vec<u64> = (0..n as u64).collect();

    let mut seg = SegmentedIndex::new(dim, 4, 37).unwrap();
    // Insert in irregular batches to exercise sealing.
    for chunk_start in (0..n).step_by(23) {
        let end = (chunk_start + 23).min(n);
        add(&mut seg, &vecs[chunk_start * dim..end * dim], &ids[chunk_start..end]).unwrap();
    }
    assert!(seg.n_sealed() >= 1);

    let mut mono = IdMapIndex::new(dim, 4).unwrap();
    mono.add_with_ids(&vecs, &ids).unwrap();

    let queries = gen(15, dim, 1234);
    let k = 10;
    for q in 0..15 {
        let query = &queries[q * dim..(q + 1) * dim];
        let seg_res = search(&seg, query, k);
        let (mscores, mids) = mono.search(query, k);

        // Top-1 must match exactly.
        assert_eq!(
            seg_res[0].0, mids[0],
            "query {q}: top-1 id mismatch (seg={}, mono={})",
            seg_res[0].0, mids[0],
        );
        // Top-1 score must match closely (same codes, same score).
        assert!(
            (seg_res[0].1 - mscores[0]).abs() < 1e-4,
            "query {q}: top-1 score mismatch {} vs {}",
            seg_res[0].1,
            mscores[0],
        );
        // Top-k id *sets* must be equal.
        let seg_set: HashSet<u64> = seg_res.iter().map(|(id, _)| *id).collect();
        let mono_set: HashSet<u64> = mids.iter().copied().collect();
        assert_eq!(seg_set, mono_set, "query {q}: top-{k} id set mismatch");
    }
}

#[test]
fn self_queries_match_monolithic_across_segments() {
    // Query the index with each of its own stored vectors. The winner for vector i
    // lives in whichever segment absorbed it, so this exercises the fan-out and the
    // merge for every segment.
    let dim = 64;
    let n = 256;
    let vecs = gen(n, dim, 9);
    let ids: Vec<u64> = (0..n as u64).collect();

    let mut seg = SegmentedIndex::new(dim, 4, 40).unwrap();
    for chunk_start in (0..n).step_by(17) {
        let end = (chunk_start + 17).min(n);
        add(&mut seg, &vecs[chunk_start * dim..end * dim], &ids[chunk_start..end]).unwrap();
    }
    assert!(seg.n_sealed() >= 3, "got {} sealed", seg.n_sealed());

    let mut mono = IdMapIndex::new(dim, 4).unwrap();
    mono.add_with_ids(&vecs, &ids).unwrap();

    for i in 0..n {
        let q = &vecs[i * dim..(i + 1) * dim];
        let s = search(&seg, q, 5);
        let (_mscores, mids) = mono.search(q, 5);
        assert_eq!(s[0].0, mids[0], "self-query {i}: top-1 differs");
    }
}

#[test]
fn delete_routes_to_owning_segment() {
    // 130 vectors in batches of 20 against a soft cap of 32: batches seal at ~40
    // vectors, leaving the final 10 in the hot segment. So this deletes one id from a
    // sealed segment AND one from the hot segment.
    let dim = 64;
    let n = 130;
    let vecs = gen(n, dim, 5);
    let ids: Vec<u64> = (0..n as u64).collect();
    let mut idx = SegmentedIndex::new(dim, 4, 32).unwrap();
    for chunk_start in (0..n).step_by(20) {
        let end = (chunk_start + 20).min(n);
        add(&mut idx, &vecs[chunk_start * dim..end * dim], &ids[chunk_start..end]).unwrap();
    }
    assert!(idx.n_sealed() >= 2, "got {} sealed", idx.n_sealed());

    let sealed_id = 5u64; // an early id: in a sealed segment
    let recent_id = 125u64; // a late id: still in the hot segment
    assert!(idx.remove(sealed_id));
    assert!(idx.remove(recent_id));
    assert!(!idx.remove(sealed_id)); // a second delete is a no-op
    assert_eq!(idx.len(), n - 2);
    assert!(!idx.contains(sealed_id) && !idx.contains(recent_id));

    // Neither deleted vector resurfaces, even when queried with itself.
    let q_sealed = &vecs[sealed_id as usize * dim..(sealed_id as usize + 1) * dim];
    assert!(search(&idx, q_sealed, 10).iter().all(|(id, _)| *id != sealed_id));
    let q_recent = &vecs[recent_id as usize * dim..(recent_id as usize + 1) * dim];
    assert!(search(&idx, q_recent, 10).iter().all(|(id, _)| *id != recent_id));

    // A survivor in the same sealed segment whose layout was just invalidated by the
    // delete still self-matches at top-1.
    let q10 = &vecs[10 * dim..11 * dim];
    assert_eq!(search(&idx, q10, 1)[0].0, 10);
}

#[test]
fn empty_index_search_is_empty() {
    let idx = SegmentedIndex::new(64, 4, 16).unwrap();
    assert!(idx.is_empty());
    assert!(search(&idx, &vec![0.1f32; 64], 5).is_empty());
}

#[test]
fn allowlist_matches_monolithic() {
    // Filtered search across segments must equal a monolithic IdMapIndex's filtered
    // search.
    let dim = 64;
    let n = 300;
    let vecs = gen(n, dim, 314);
    let ids: Vec<u64> = (0..n as u64).collect();

    let mut seg = SegmentedIndex::new(dim, 4, 50).unwrap();
    for chunk_start in (0..n).step_by(40) {
        let end = (chunk_start + 40).min(n);
        add(&mut seg, &vecs[chunk_start * dim..end * dim], &ids[chunk_start..end]).unwrap();
    }
    assert!(seg.n_sealed() >= 2);

    let mut mono = IdMapIndex::new(dim, 4).unwrap();
    mono.add_with_ids(&vecs, &ids).unwrap();

    // Allowlist: every 3rd id (spans every segment), comfortably > k.
    let allow: Vec<u64> = ids.iter().copied().step_by(3).collect();
    let allow_set: HashSet<u64> = allow.iter().copied().collect();
    let k = 10;
    let queries = gen(12, dim, 271);
    for q in 0..12 {
        let query = &queries[q * dim..(q + 1) * dim];
        let s = search_with_allowlist(&seg, query, k, &allow);
        let (mscores, mids) = mono.search_with_allowlist(query, k, Some(&allow)).unwrap();

        assert_eq!(s.len(), k, "query {q}: expected k filtered results");
        assert_eq!(s[0].0, mids[0], "query {q}: filtered top-1 differs");
        assert!((s[0].1 - mscores[0]).abs() < 1e-4);
        let s_set: HashSet<u64> = s.iter().map(|(id, _)| *id).collect();
        let m_set: HashSet<u64> = mids.iter().copied().collect();
        assert_eq!(s_set, m_set, "query {q}: filtered top-k set differs");
        // Every returned id must be in the allowlist.
        assert!(s.iter().all(|(id, _)| allow_set.contains(id)));
    }
}

#[test]
fn allowlist_restricts_and_ignores_unknown_ids() {
    let dim = 64;
    let n = 120;
    let vecs = gen(n, dim, 88);
    let ids: Vec<u64> = (0..n as u64).collect();
    let mut seg = SegmentedIndex::new(dim, 4, 32).unwrap();
    for chunk_start in (0..n).step_by(25) {
        let end = (chunk_start + 25).min(n);
        add(&mut seg, &vecs[chunk_start * dim..end * dim], &ids[chunk_start..end]).unwrap();
    }
    // Delete id 7, then put it (and an id that never existed) in the allowlist
    // alongside live ids spread across segments.
    seg.remove(7);
    let allow = vec![3u64, 7 /* deleted */, 50, 999_999 /* never existed */, 88];

    let res = search_with_allowlist(&seg, &vecs[3 * dim..4 * dim], 10, &allow);
    let got: HashSet<u64> = res.iter().map(|(id, _)| *id).collect();

    // Only live, known allowlist ids may appear; unknown/deleted are dropped.
    let live_allowed: HashSet<u64> = HashSet::from([3u64, 50, 88]);
    assert!(got.is_subset(&live_allowed), "got ids outside allowlist: {got:?}");
    assert!(!got.contains(&7) && !got.contains(&999_999));
    // Querying with vector 3 (allowed) surfaces it.
    assert!(got.contains(&3));
}

#[test]
fn construction_reports_what_is_wrong() {
    assert_eq!(
        SegmentedIndex::new(64, 5, 1).err(),
        Some(ConstructError::BitWidthOutOfRange(5))
    );
    assert_eq!(
        SegmentedIndex::new(64, 1, 1).err(),
        Some(ConstructError::BitWidthOutOfRange(1))
    );
    assert_eq!(
        SegmentedIndex::new(0, 4, 1).err(),
        Some(ConstructError::DimNotPositiveMultipleOf8(0))
    );
    assert_eq!(
        SegmentedIndex::new(63, 4, 1).err(),
        Some(ConstructError::DimNotPositiveMultipleOf8(63))
    );
    assert_eq!(
        SegmentedIndex::new(16_392, 4, 1).err(),
        Some(ConstructError::DimTooLarge { dim: 16_392, max: 16_384 })
    );
    // The bit width is looked at first.
    assert_eq!(
        SegmentedIndex::new(63, 9, 1).err(),
        Some(ConstructError::BitWidthOutOfRange(9))
    );
    for bits in 2..=4 {
        let idx = SegmentedIndex::new(16_384, bits, 1).unwrap();
        assert_eq!((idx.dim(), idx.bit_width()), (16_384, bits));
    }
}

#[test]
fn a_buffer_of_broken_vectors_is_refused() {
    let mut idx = SegmentedIndex::new(8, 4, 4).unwrap();
    assert!(matches!(
        add(&mut idx, &gen(1, 7, 1), &[1]),
        Err(AddError::VectorBufferNotMultipleOfDim { vectors_len: 7, dim: 8 })
    ));
    assert!(idx.is_empty());
}

#[test]
fn one_id_for_each_vector_is_asked_for() {
    let mut idx = SegmentedIndex::new(8, 4, 4).unwrap();
    assert!(matches!(
        add(&mut idx, &gen(2, 8, 1), &[1]),
        Err(AddError::IdsCountMismatch { expected: 2, got: 1 })
    ));
    assert!(idx.is_empty());
}

#[test]
fn what_the_segment_rejects_is_passed_on() {
    let mut idx = SegmentedIndex::new(8, 4, 4).unwrap();
    let bad = [f32::NAN; 8];
    assert!(matches!(add(&mut idx, &bad, &[1]), Err(AddError::Segment(_))));
    assert!(idx.is_empty());
    assert!(!idx.contains(1));
}

#[test]
fn the_first_taken_id_is_reported() {
    let mut idx = SegmentedIndex::new(8, 4, 100).unwrap();
    add(&mut idx, &gen(2, 8, 1), &[10, 20]).unwrap();
    assert!(matches!(
        add(&mut idx, &gen(4, 8, 2), &[30, 20, 30, 10]),
        Err(AddError::IdAlreadyPresent(20))
    ));
    assert!(matches!(
        add(&mut idx, &gen(3, 8, 2), &[30, 30, 20]),
        Err(AddError::IdAlreadyPresent(30))
    ));
    assert_eq!(idx.len(), 2);
}

#[test]
fn an_empty_batch_changes_nothing() {
    let mut idx = SegmentedIndex::new(8, 4, 1).unwrap();
    add(&mut idx, &[], &[]).unwrap();
    assert_eq!((idx.len(), idx.n_sealed()), (0, 0));
}

#[test]
fn the_hot_segment_is_sealed_at_its_cap() {
    let mut idx = SegmentedIndex::new(8, 4, 3).unwrap();
    add(&mut idx, &gen(2, 8, 1), &[1, 2]).unwrap();
    assert_eq!(idx.n_sealed(), 0);
    add(&mut idx, &gen(1, 8, 2), &[3]).unwrap();
    assert_eq!(idx.n_sealed(), 1);
    assert_eq!(idx.len(), 3);
}

#[test]
fn a_cap_of_zero_counts_as_one() {
    let mut idx = SegmentedIndex::new(8, 4, 0).unwrap();
    add(&mut idx, &gen(1, 8, 1), &[1]).unwrap();
    assert_eq!(idx.n_sealed(), 1);
}

#[test]
fn sealing_keeps_every_id() {
    let mut idx = SegmentedIndex::new(8, 4, 100).unwrap();
    idx.seal();
    assert_eq!(idx.n_sealed(), 0);
    add(&mut idx, &gen(5, 8, 1), &[1, 2, 3, 4, 5]).unwrap();
    idx.seal();
    idx.seal();
    assert_eq!(idx.n_sealed(), 1);
    assert_eq!(idx.len(), 5);
    for id in 1..=5 {
        assert!(idx.contains(id) && idx.routes(id));
    }
    assert!(idx.sealable());
}

#[test]
fn a_deleted_id_can_come_back() {
    let vecs = gen(2, 8, 3);
    let mut idx = SegmentedIndex::new(8, 4, 1).unwrap();
    add(&mut idx, &vecs[..8], &[9]).unwrap();
    assert!(idx.remove(9));
    add(&mut idx, &vecs[8..], &[9]).unwrap();
    assert_eq!(idx.len(), 1);
    assert_eq!(search(&idx, &vecs[8..], 5).len(), 1);
    assert!(idx.remove(9));
    assert!(search(&idx, &vecs[8..], 5).is_empty());
}

#[test]
fn asking_for_nothing_finds_nothing() {
    let vecs = gen(3, 8, 1);
    let mut idx = SegmentedIndex::new(8, 4, 2).unwrap();
    add(&mut idx, &vecs, &[1, 2, 3]).unwrap();
    assert!(search(&idx, &vecs[..8], 0).is_empty());
    assert!(search_with_allowlist(&idx, &vecs[..8], 0, &[1]).is_empty());
    assert!(search_with_allowlist(&idx, &vecs[..8], 3, &[]).is_empty());
    assert!(search_with_allowlist(&idx, &vecs[..8], 3, &[77]).is_empty());
}

#[test]
fn answers_come_best_first_and_at_most_k() {
    let vecs = gen(20, 8, 6);
    let ids: Vec<u64> = (0..20).collect();
    let mut idx = SegmentedIndex::new(8, 4, 6).unwrap();
    for cs in (0..20).step_by(4) {
        add(&mut idx, &vecs[cs * 8..(cs + 4) * 8], &ids[cs..cs + 4]).unwrap();
    }
    let top = search(&idx, &vecs[..8], 7);
    assert_eq!(top.len(), 7);
    assert!(top.windows(2).all(|w| w[0].1 >= w[1].1));
    assert_eq!(search(&idx, &vecs[..8], 100).len(), 20);
}

#[test]
fn each_segment_is_asked_for_its_own_ids_once() {
    let vecs = gen(6, 8, 4);
    let mut idx = SegmentedIndex::new(8, 4, 2).unwrap();
    for i in 0..5 {
        add(&mut idx, &vecs[i * 8..(i + 1) * 8], &[i as u64]).unwrap();
    }
    assert_eq!(idx.n_sealed(), 2);
    let handed = std::cell::RefCell::new(Vec::new());
    let _ = idx.search_with_allowlist(
        8,
        3,
        &[4, 1, 9, 1, 0, 4],
        |_seg: &IdMapIndex, _k: usize, ids: &[u64]| {
            handed.borrow_mut().push(ids.to_vec());
            Vec::new()
        },
    );
    // The middle segment owns none of the allowed ids.
    assert_eq!(*handed.borrow(), vec![vec![1, 0], vec![4]]);
}

/// An index of 40 vectors in several segments, and the vectors.
fn forty() -> (SegmentedIndex, Vec<f32>) {
    let vecs = gen(40, 16, 12);
    let ids: Vec<u64> = (0..40).collect();
    let mut idx = SegmentedIndex::new(16, 4, 11).unwrap();
    for cs in (0..40).step_by(8) {
        add(&mut idx, &vecs[cs * 16..(cs + 8) * 16], &ids[cs..cs + 8]).unwrap();
    }
    (idx, vecs)
}

#[test]
fn sealing_leaves_answers_alike() {
    let (mut idx, vecs) = forty();
    let before = search(&idx, &vecs[..16], 9);
    let sealed = idx.n_sealed();
    idx.seal();
    assert_eq!(idx.n_sealed(), sealed + 1);
    assert_eq!(search(&idx, &vecs[..16], 9), before);
}

#[test]
fn a_removal_takes_one_hit_out_of_the_full_answer() {
    let (mut idx, vecs) = forty();
    for id in [3u64, 39] {
        let before = search(&idx, &vecs[..16], idx.len());
        assert!(idx.remove(id));
        let expected: Vec<(u64, f32)> =
            before.into_iter().filter(|(other, _)| *other != id).collect();
        assert_eq!(search(&idx, &vecs[..16], idx.len()), expected);
    }
}

#[test]
fn an_answer_heads_the_full_answer() {
    let (idx, vecs) = forty();
    let full = search(&idx, &vecs[..16], idx.len());
    assert_eq!(full.len(), 40);
    for k in [1, 5, 39, 40] {
        assert_eq!(search(&idx, &vecs[..16], k), full[..k]);
    }
}

#[test]
fn the_filter_comes_before_the_cut() {
    let (idx, vecs) = forty();
    let allowed: Vec<u64> = (0..40).filter(|id| id % 4 == 1).collect();
    let full = search(&idx, &vecs[..16], idx.len());
    let kept: Vec<(u64, f32)> =
        full.into_iter().filter(|(id, _)| allowed.contains(id)).collect();
    assert_eq!(kept.len(), 10);
    assert_eq!(search_with_allowlist(&idx, &vecs[..16], 4, &allowed), kept[..4]);
    assert_eq!(search_with_allowlist(&idx, &vecs[..16], 99, &allowed), kept);
}

#[test]
fn only_the_live_ids_of_an_allowlist_count() {
    let (mut idx, vecs) = forty();
    assert!(idx.remove(8));
    let plain = search_with_allowlist(&idx, &vecs[..16], 3, &[2, 17, 30, 35]);
    let mixed = search_with_allowlist(&idx, &vecs[..16], 3, &[35, 8, 17, 999, 2, 30, 17, 35]);
    assert_eq!(plain, mixed);
    assert_eq!(plain.len(), 3);
}

#[test]
fn one_batch_seals_one_segment_at_most() {
    let mut idx = SegmentedIndex::new(8, 4, 3).unwrap();
    assert_eq!(idx.max_hot(), 3);
    let vecs = gen(12, 8, 2);
    add(&mut idx, &vecs[..80], &(0..10).collect::<Vec<u64>>()).unwrap();
    assert_eq!(idx.n_sealed(), 1);
    add(&mut idx, &vecs[80..], &[10, 11]).unwrap();
    assert_eq!((idx.n_sealed(), idx.len()), (1, 12));
}

#[test]
fn every_segment_has_the_shape_of_the_index() {
    let mut idx = SegmentedIndex::new(24, 3, 2).unwrap();
    let vecs = gen(5, 24, 8);
    for i in 0..5 {
        let v = &vecs[i * 24..(i + 1) * 24];
        idx.add(24, &[i as u64], |hot: &mut IdMapIndex, dim: usize, ids: &[u64]| {
            assert_eq!((hot.dim_opt(), hot.bit_width(), dim), (Some(24), 3, 24));
            hot.add_with_ids_2d(v, dim, ids)
        })
        .unwrap();
    }
    assert!(idx.remove(0));
    assert_eq!(idx.n_sealed(), 2);
    let asked = std::cell::RefCell::new(Vec::new());
    let _ = idx.search(24, 1, |seg: &IdMapIndex, _k: usize| {
        asked.borrow_mut().push((seg.dim_opt(), seg.bit_width()));
        Vec::new()
    });
    assert_eq!(*asked.borrow(), vec![(Some(24), 3); 3]);
}
