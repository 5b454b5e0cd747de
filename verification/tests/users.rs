use movielens::record::Rating;
use movielens::users::{distinct_users, UserSample};

fn rating(user_id: i32, movie_id: i32) -> Rating {
    Rating { movie_id, user_id, rating: "3.5".to_string(), timestamp: 0 }
}

fn ratings_of(users: &[i32]) -> Vec<Rating> {
    users.iter().map(|u| rating(*u, 1)).collect()
}

#[test]
fn distinct_users_come_once_each_in_ascending_order() {
    assert_eq!(distinct_users(&ratings_of(&[5, 3, 5, 1, 3, 3, 9, 1])), vec![1, 3, 5, 9]);
    assert_eq!(distinct_users(&ratings_of(&[])), Vec::<i32>::new());
    assert_eq!(distinct_users(&ratings_of(&[7, 7, 7])), vec![7]);
    assert_eq!(distinct_users(&ratings_of(&[i32::MAX, i32::MIN, 0, -1])), vec![i32::MIN, -1, 0, i32::MAX]);
}

#[test]
fn the_sample_holds_the_lowest_users() {
    let ratings = ratings_of(&[40, 10, 30, 10, 20, 50, 20]);
    let sample = UserSample::lowest(&ratings, 3).unwrap();
    assert_eq!(sample.ids(), &vec![10, 20, 30]);
    assert_eq!(sample.len(), 3);
    assert!(sample.contains(10));
    assert!(sample.contains(20));
    assert!(sample.contains(30));
    assert!(!sample.contains(40));
    assert!(!sample.contains(50));
    assert!(!sample.contains(15));
    assert!(!sample.contains(0));
}

#[test]
fn the_sample_does_not_depend_on_the_order_of_the_ratings() {
    let one = UserSample::lowest(&ratings_of(&[1, 2, 3, 4, 5, 6]), 4).unwrap();
    let other = UserSample::lowest(&ratings_of(&[6, 5, 4, 3, 2, 1, 1, 6]), 4).unwrap();
    assert_eq!(one.ids(), other.ids());
    assert_eq!(one.ids(), &vec![1, 2, 3, 4]);
}

#[test]
fn a_sample_of_all_users_holds_them_all() {
    let sample = UserSample::lowest(&ratings_of(&[3, 1, 2, 3]), 3).unwrap();
    assert_eq!(sample.ids(), &vec![1, 2, 3]);
}

#[test]
fn an_empty_sample_holds_nobody() {
    let sample = UserSample::lowest(&ratings_of(&[3, 1, 2]), 0).unwrap();
    assert_eq!(sample.len(), 0);
    assert!(!sample.contains(1));
    let sample = UserSample::lowest(&ratings_of(&[]), 0).unwrap();
    assert_eq!(sample.len(), 0);
}

#[test]
fn too_few_users_give_no_sample() {
    assert!(UserSample::lowest(&ratings_of(&[3, 1, 2, 3, 1]), 4).is_none());
    assert!(UserSample::lowest(&ratings_of(&[]), 1).is_none());
    assert!(UserSample::lowest(&ratings_of(&[7, 7, 7, 7]), 2).is_none());
}

#[test]
fn a_thousand_users_out_of_more() {
    let mut ratings = Vec::new();
    for user in (0..1500).rev() {
        ratings.push(rating(user * 2, 1));
        ratings.push(rating(user * 2, 2));
    }
    let sample = UserSample::lowest(&ratings, 1000).unwrap();
    assert_eq!(sample.len(), 1000);
    let expected: Vec<i32> = (0..1000).map(|u| u * 2).collect();
    assert_eq!(sample.ids(), &expected);
    assert!(sample.contains(1998));
    assert!(!sample.contains(2000));
    assert!(!sample.contains(1999));
    assert!(UserSample::lowest(&ratings, 1501).is_none());
    assert!(UserSample::lowest(&ratings, 1500).is_some());
}
