use movielens::join::{filter_ratings, find_movie, join_ratings, MissingMovie};
use movielens::record::{Movie, MovieLens, Rating};
use movielens::users::UserSample;

fn rating(user_id: i32, movie_id: i32, rating: &str, timestamp: i32) -> Rating {
    Rating { movie_id, user_id, rating: rating.to_string(), timestamp }
}

fn movie(id: i32, title: &str, genres: &[&str]) -> Movie {
    Movie { id, title: title.to_string(), genres: genres.iter().map(|g| g.to_string()).collect() }
}

fn movies() -> Vec<Movie> {
    vec![
        movie(1, "Toy Story (1995)", &["Adventure", "Animation"]),
        movie(2, "Jumanji (1995)", &["Adventure", "Children", "Fantasy"]),
        movie(3, "Heat (1995)", &["Action", "Crime", "Thriller"]),
        movie(2, "Jumanji again", &["Comedy"]),
    ]
}

#[test]
fn only_ratings_of_the_sample_are_kept() {
    let ratings = vec![
        rating(5, 1, "4", 10),
        rating(1, 2, "3", 11),
        rating(9, 3, "2", 12),
        rating(3, 1, "5", 13),
        rating(1, 3, "1", 14),
    ];
    let sample = UserSample::lowest(&ratings, 2).unwrap();
    let kept = filter_ratings(&ratings, &sample);
    assert_eq!(kept, vec![&ratings[1], &ratings[3], &ratings[4]]);
    for r in kept {
        assert!(sample.contains(r.user_id));
    }
}

#[test]
fn every_rating_of_the_sample_is_kept_once() {
    let ratings = vec![
        rating(2, 1, "4", 10),
        rating(2, 1, "4", 10),
        rating(1, 2, "3", 11),
        rating(7, 2, "3", 11),
    ];
    let sample = UserSample::lowest(&ratings, 2).unwrap();
    let kept = filter_ratings(&ratings, &sample);
    assert_eq!(kept.len(), 3);
    assert_eq!(kept, vec![&ratings[0], &ratings[1], &ratings[2]]);
}

#[test]
fn an_empty_sample_keeps_nothing() {
    let ratings = vec![rating(2, 1, "4", 10)];
    let sample = UserSample::lowest(&ratings, 0).unwrap();
    assert!(filter_ratings(&ratings, &sample).is_empty());
}

#[test]
fn the_first_movie_of_a_number_is_found() {
    let movies = movies();
    assert_eq!(find_movie(&movies, 1), Some(&movies[0]));
    assert_eq!(find_movie(&movies, 2), Some(&movies[1]));
    assert_eq!(find_movie(&movies, 3), Some(&movies[2]));
    assert_eq!(find_movie(&movies, 4), None);
    assert_eq!(find_movie(&Vec::new(), 1), None);
}

#[test]
fn a_joined_record_has_the_fields_of_its_rating_and_its_movie() {
    let ratings = vec![rating(7, 3, "4.5", 99), rating(8, 1, "0.5", 100)];
    let kept: Vec<&Rating> = ratings.iter().collect();
    let records = join_ratings(&kept, &movies()).unwrap();
    assert_eq!(
        records,
        vec![
            MovieLens {
                movie_id: 3,
                user_id: 7,
                rating: "4.5".to_string(),
                timestamp: 99,
                title: "Heat (1995)".to_string(),
                genres: vec!["Action".to_string(), "Crime".to_string(), "Thriller".to_string()],
            },
            MovieLens {
                movie_id: 1,
                user_id: 8,
                rating: "0.5".to_string(),
                timestamp: 100,
                title: "Toy Story (1995)".to_string(),
                genres: vec!["Adventure".to_string(), "Animation".to_string()],
            },
        ]
    );
}

#[test]
fn a_rating_is_joined_with_the_first_movie_of_its_number() {
    let ratings = vec![rating(7, 2, "4.5", 99)];
    let kept: Vec<&Rating> = ratings.iter().collect();
    let records = join_ratings(&kept, &movies()).unwrap();
    assert_eq!(records[0].title, "Jumanji (1995)");
    assert_eq!(records[0].genres, vec!["Adventure", "Children", "Fantasy"]);
}

#[test]
fn every_joined_record_matches_the_movie_of_its_rating() {
    let movies = movies();
    let ratings =
        vec![rating(1, 1, "1", 1), rating(2, 2, "2", 2), rating(3, 3, "3", 3), rating(4, 1, "4", 4)];
    let kept: Vec<&Rating> = ratings.iter().collect();
    let records = join_ratings(&kept, &movies).unwrap();
    assert_eq!(records.len(), ratings.len());
    for (record, rating) in records.iter().zip(ratings.iter()) {
        let movie = movies.iter().find(|m| m.id == rating.movie_id).unwrap();
        assert_eq!(record.movie_id, movie.id);
        assert_eq!(record.title, movie.title);
        assert_eq!(record.genres, movie.genres);
        assert_eq!(record.user_id, rating.user_id);
        assert_eq!(record.rating, rating.rating);
        assert_eq!(record.timestamp, rating.timestamp);
    }
}

#[test]
fn no_ratings_join_to_no_records() {
    assert_eq!(join_ratings(&Vec::new(), &movies()), Ok(vec![]));
    assert_eq!(join_ratings(&Vec::new(), &Vec::new()), Ok(vec![]));
}

#[test]
fn a_rating_of_a_movie_that_is_not_there_fails_the_join() {
    let ratings = vec![rating(1, 1, "1", 1), rating(2, 42, "2", 2), rating(3, 3, "3", 3)];
    let kept: Vec<&Rating> = ratings.iter().collect();
    assert_eq!(join_ratings(&kept, &movies()), Err(MissingMovie { movie_id: 42 }));
}

#[test]
fn the_first_missing_movie_is_the_one_reported() {
    let ratings = vec![rating(1, 1, "1", 1), rating(2, 77, "2", 2), rating(3, 42, "3", 3)];
    let kept: Vec<&Rating> = ratings.iter().collect();
    assert_eq!(join_ratings(&kept, &movies()), Err(MissingMovie { movie_id: 77 }));
    assert_eq!(join_ratings(&kept, &Vec::new()), Err(MissingMovie { movie_id: 1 }));
}
