use turbovec::IdMapIndex;
use turbovec_pg_engine::idmap::ConstructError;
use turbovec_pg_engine::registry::{
    usize_arg, Argument, CreateError, HeapPointer, QueryError, Registry, Row, RowError,
};
use turbovec_pg_engine::score::Hit;
use turbovec_pg_engine::state::AddError;
use turbovec_pg_engine::SegmentedIndex;

fn add(
    reg: &mut Registry,
    name: &str,
    row: HeapPointer,
    vector: &[f32],
) -> Result<(), RowError<turbovec::AddError>> {
    reg.add(name, row, vector.len(), |hot: &mut IdMapIndex, dim: usize, ids: &[u64]| {
        hot.add_with_ids_2d(vector, dim, ids)
    })
}

fn hits((scores, ids): (Vec<f32>, Vec<u64>)) -> Vec<Hit> {
    ids.into_iter().zip(scores.into_iter().map(f32::to_bits)).collect()
}

fn search(reg: &Registry, name: &str, query: &[f32], k: i32) -> Result<Vec<Row>, QueryError> {
    reg.search(name, query.len(), k, |seg: &IdMapIndex, k: usize| hits(seg.search(query, k)))
}

fn search_filtered(
    reg: &Registry,
    name: &str,
    query: &[f32],
    k: i32,
    allowed: &[HeapPointer],
) -> Result<Vec<Row>, QueryError> {
    reg.search_filtered(
        name,
        query.len(),
        k,
        allowed,
        |seg: &IdMapIndex, k: usize, ids: &[u64]| {
            hits(seg.search_with_allowlist(query, k, Some(ids)).unwrap())
        },
    )
}

fn unit(i: usize) -> Vec<f32> {
    let mut v = vec![0.0f32; 8];
    v[i] = 1.0;
    v
}

#[test]
fn create_add_search_join_by_ctid() {
    let mut reg = Registry::new();
    reg.create("t", 8, 4, 16).unwrap();
    add(&mut reg, "t", (0, 1), &unit(0)).unwrap();
    add(&mut reg, "t", (0, 2), &unit(1)).unwrap();
    assert_eq!(reg.size("t"), Some(2));

    // Querying with the first vector returns its row as the top hit.
    let top = search(&reg, "t", &unit(0), 1).unwrap();
    assert_eq!(top.len(), 1);
    assert_eq!(top[0].0, (0, 1));

    // Delete it, and it is no longer returned.
    assert_eq!(reg.delete("t", (0, 1)), Some(true));
    assert_eq!(reg.delete("t", (0, 1)), Some(false));
    let after = search(&reg, "t", &unit(0), 1).unwrap();
    assert_eq!(after[0].0, (0, 2));
}

#[test]
fn filtered_search_restricts_to_allowlist() {
    let mut reg = Registry::new();
    reg.create("f", 8, 4, 16).unwrap();
    add(&mut reg, "f", (0, 1), &unit(0)).unwrap();
    add(&mut reg, "f", (0, 2), &unit(1)).unwrap();
    add(&mut reg, "f", (0, 3), &unit(2)).unwrap();

    // The true nearest to the query is (0,1), but the allowlist leaves it out, so the
    // top hit must come from {(0,2),(0,3)} instead.
    let rows = search_filtered(&reg, "f", &unit(0), 5, &[(0, 2), (0, 3)]).unwrap();
    assert!(!rows.is_empty(), "filtered search returned no rows");
    assert_ne!(rows[0].0, (0, 1), "allowlist failed to exclude (0,1)");
}

#[test]
fn filtered_search_ignores_rows_that_are_not_indexed() {
    let mut reg = Registry::new();
    reg.create("f", 8, 4, 16).unwrap();
    add(&mut reg, "f", (0, 1), &unit(0)).unwrap();
    add(&mut reg, "f", (0, 2), &unit(1)).unwrap();
    add(&mut reg, "f", (0, 3), &unit(2)).unwrap();
    let rows = search_filtered(&reg, "f", &unit(0), 5, &[(0, 2), (7, 7), (0, 3)]).unwrap();
    let mut at: Vec<HeapPointer> = rows.iter().map(|row| row.0).collect();
    at.sort_unstable();
    assert_eq!(at, [(0, 2), (0, 3)]);
}

#[test]
fn rows_far_apart_come_back_whole() {
    let mut reg = Registry::new();
    reg.create("far", 8, 4, 1).unwrap();
    let rows = [(0, 1), (1, 0), (u32::MAX, u16::MAX), (70_000, 300)];
    for (i, row) in rows.iter().enumerate() {
        add(&mut reg, "far", *row, &unit(i)).unwrap();
    }
    for (i, row) in rows.iter().enumerate() {
        assert_eq!(search(&reg, "far", &unit(i), 1).unwrap()[0].0, *row);
    }
}

#[test]
fn creation_reports_the_first_fault() {
    let mut reg = Registry::new();
    assert_eq!(
        reg.create("x", -1, -2, -3),
        Err(CreateError::Negative(Argument::Dim, -1))
    );
    assert_eq!(
        reg.create("x", 8, -2, -3),
        Err(CreateError::Negative(Argument::BitWidth, -2))
    );
    assert_eq!(
        reg.create("x", 8, 7, -3),
        Err(CreateError::Negative(Argument::MaxHot, -3))
    );
    assert_eq!(
        reg.create("x", 8, 7, 3),
        Err(CreateError::Construct(ConstructError::BitWidthOutOfRange(7)))
    );
    assert_eq!(reg.size("x"), None);
    reg.create("x", 8, 4, 3).unwrap();
    assert_eq!(reg.create("x", 16, 4, 3), Err(CreateError::AlreadyExists));
    assert_eq!(
        reg.create("x", 9, 4, 3),
        Err(CreateError::Construct(ConstructError::DimNotPositiveMultipleOf8(9)))
    );
    assert_eq!(reg.get("x").unwrap().dim(), 8);
}

#[test]
fn an_unknown_name_is_reported() {
    let mut reg = Registry::new();
    assert!(matches!(add(&mut reg, "no", (0, 1), &unit(0)), Err(RowError::NoSuchIndex)));
    assert_eq!(reg.delete("no", (0, 1)), None);
    assert_eq!(reg.size("no"), None);
    assert_eq!(search(&reg, "no", &unit(0), 1), Err(QueryError::NoSuchIndex));
    assert_eq!(
        search(&reg, "no", &unit(0), -1),
        Err(QueryError::Negative(Argument::K, -1))
    );
    assert_eq!(
        search_filtered(&reg, "no", &unit(0), 1, &[]),
        Err(QueryError::NoSuchIndex)
    );
    assert_eq!(
        search_filtered(&reg, "no", &unit(0), -9, &[]),
        Err(QueryError::Negative(Argument::K, -9))
    );
    assert!(reg.get("no").is_none());
    assert!(reg.get_mut("no").is_none());
}

#[test]
fn a_row_is_added_once() {
    let mut reg = Registry::new();
    reg.create("t", 8, 4, 1).unwrap();
    add(&mut reg, "t", (3, 4), &unit(0)).unwrap();
    assert!(matches!(
        add(&mut reg, "t", (3, 4), &unit(1)),
        Err(RowError::Add(AddError::IdAlreadyPresent(196_612)))
    ));
    assert!(matches!(
        add(&mut reg, "t", (3, 5), &[0.5; 4]),
        Err(RowError::Add(AddError::VectorBufferNotMultipleOfDim { vectors_len: 4, dim: 8 }))
    ));
    assert!(matches!(
        add(&mut reg, "t", (3, 5), &[f32::INFINITY; 8]),
        Err(RowError::Add(AddError::Segment(_)))
    ));
    assert_eq!(reg.size("t"), Some(1));
}

#[test]
fn names_stand_for_their_own_indexes() {
    let mut reg = Registry::new();
    reg.create("a", 8, 4, 4).unwrap();
    reg.create("b", 16, 2, 4).unwrap();
    add(&mut reg, "a", (0, 1), &unit(0)).unwrap();
    assert_eq!((reg.size("a"), reg.size("b")), (Some(1), Some(0)));

    // Putting an index under a name replaces the one that was there.
    reg.insert("a", SegmentedIndex::new(24, 3, 4).unwrap());
    assert_eq!(reg.size("a"), Some(0));
    assert_eq!(reg.get("a").unwrap().dim(), 24);
    assert_eq!(reg.get("b").unwrap().dim(), 16);
    reg.get_mut("b").unwrap().seal();
    assert_eq!(reg.get("b").unwrap().n_sealed(), 0);
}

#[test]
fn asking_for_no_rows_gives_none() {
    let mut reg = Registry::new();
    reg.create("t", 8, 4, 4).unwrap();
    add(&mut reg, "t", (0, 1), &unit(0)).unwrap();
    assert_eq!(search(&reg, "t", &unit(0), 0), Ok(Vec::new()));
    assert_eq!(search_filtered(&reg, "t", &unit(0), 0, &[(0, 1)]), Ok(Vec::new()));
}

#[test]
fn a_sql_integer_is_a_size_unless_negative() {
    assert_eq!(usize_arg(0), Some(0));
    assert_eq!(usize_arg(i32::MAX), Some(2_147_483_647));
    assert_eq!(usize_arg(-1), None);
    assert_eq!(usize_arg(i32::MIN), None);
}
