use movielens::order::sort_by_user_id;
use movielens::record::MovieLens;

fn record(user_id: i32, movie_id: i32) -> MovieLens {
    MovieLens {
        movie_id,
        user_id,
        rating: "3".to_string(),
        timestamp: movie_id,
        title: format!("Movie {}", movie_id),
        genres: vec!["Drama".to_string()],
    }
}

fn keys(records: &[MovieLens]) -> Vec<(i32, i32)> {
    records.iter().map(|r| (r.user_id, r.movie_id)).collect()
}

#[test]
fn records_come_out_in_ascending_order_of_users() {
    let sorted = sort_by_user_id(vec![record(3, 1), record(1, 2), record(2, 3), record(0, 4)]);
    assert_eq!(keys(&sorted), vec![(0, 4), (1, 2), (2, 3), (3, 1)]);
}

#[test]
fn records_of_one_user_stay_in_their_order() {
    let sorted = sort_by_user_id(vec![
        record(2, 1),
        record(1, 2),
        record(2, 3),
        record(1, 4),
        record(2, 5),
        record(1, 6),
        record(1, 7),
    ]);
    assert_eq!(keys(&sorted), vec![(1, 2), (1, 4), (1, 6), (1, 7), (2, 1), (2, 3), (2, 5)]);
}

#[test]
fn sorting_keeps_every_record_whole() {
    let records = vec![record(9, 1), record(-4, 2), record(9, 3)];
    let sorted = sort_by_user_id(records.clone());
    assert_eq!(sorted, vec![records[1].clone(), records[0].clone(), records[2].clone()]);
}

#[test]
fn few_records_sort_to_themselves() {
    assert_eq!(sort_by_user_id(Vec::new()), Vec::new());
    assert_eq!(sort_by_user_id(vec![record(5, 1)]), vec![record(5, 1)]);
    assert_eq!(keys(&sort_by_user_id(vec![record(5, 1), record(5, 2)])), vec![(5, 1), (5, 2)]);
    assert_eq!(keys(&sort_by_user_id(vec![record(6, 1), record(5, 2)])), vec![(5, 2), (6, 1)]);
}

#[test]
fn the_limits_of_user_numbers_are_ordered() {
    let sorted = sort_by_user_id(vec![record(i32::MAX, 1), record(0, 2), record(i32::MIN, 3)]);
    assert_eq!(keys(&sorted), vec![(i32::MIN, 3), (0, 2), (i32::MAX, 1)]);
}

#[test]
fn sorting_agrees_with_the_stable_sort_of_the_standard_library() {
    let mut records = Vec::new();
    let mut seed: u32 = 12345;
    for movie in 0..500 {
        seed = seed.wrapping_mul(1103515245).wrapping_add(12345);
        let user = ((seed >> 16) % 37) as i32 - 18;
        records.push(record(user, movie));
    }
    let mut expected = records.clone();
    expected.sort_by(|a, b| a.user_id.cmp(&b.user_id));
    let sorted = sort_by_user_id(records);
    assert_eq!(sorted, expected);
    for pair in sorted.windows(2) {
        assert!(pair[0].user_id <= pair[1].user_id);
    }
}
