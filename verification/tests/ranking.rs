use turbovec_pg_engine::score::{beats, best, Hit};

fn hit(id: u64, score: f32) -> Hit {
    (id, score.to_bits())
}

#[test]
fn best_orders_by_descending_score() {
    let hits = vec![hit(1, 0.5), hit(2, -1.0), hit(3, 2.25), hit(4, 0.0), hit(5, -0.25)];
    let ids: Vec<u64> = best(hits, 10).into_iter().map(|(id, _)| id).collect();
    assert_eq!(ids, vec![3, 1, 4, 5, 2]);
}

#[test]
fn best_keeps_the_first_k() {
    let hits = vec![hit(1, 1.0), hit(2, 3.0), hit(3, 2.0)];
    assert_eq!(best(hits, 2), vec![hit(2, 3.0), hit(3, 2.0)]);
    assert!(best(vec![hit(1, 1.0)], 0).is_empty());
    assert!(best(Vec::new(), 4).is_empty());
}

#[test]
fn beats_agrees_with_the_numbers() {
    let numbers = [
        f32::NEG_INFINITY,
        -1.5,
        -f32::MIN_POSITIVE,
        -1e-45,
        -0.0,
        0.0,
        1e-45,
        0.25,
        3.0,
        f32::MAX,
        f32::INFINITY,
        f32::NAN,
        -f32::NAN,
    ];
    for a in numbers {
        for b in numbers {
            assert_eq!(beats(a.to_bits(), b.to_bits()), a > b, "{a} against {b}");
        }
    }
}

#[test]
fn best_keeps_every_hit_where_a_score_is_no_number() {
    let hits = vec![hit(1, 1.0), hit(2, f32::NAN), hit(3, 2.0)];
    let mut ids: Vec<u64> = best(hits, 3).into_iter().map(|(id, _)| id).collect();
    ids.sort_unstable();
    assert_eq!(ids, vec![1, 2, 3]);
}
