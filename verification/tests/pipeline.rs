use movielens::pipeline::{run_pipeline, run_pipeline_with, PipelineError, PREVIEW_LENGTH, SAMPLE_SIZE};
use movielens::record::{Movie, MovieLens, Rating};

fn rating(user_id: i32, movie_id: i32, rating: &str, timestamp: i32) -> Rating {
    Rating { movie_id, user_id, rating: rating.to_string(), timestamp }
}

fn movie(id: i32, title: &str, genres: &[&str]) -> Movie {
    Movie { id, title: title.to_string(), genres: genres.iter().map(|g| g.to_string()).collect() }
}

fn movies() -> Vec<Movie> {
    vec![
        movie(1, "Toy Story (1995)", &["Adventure", "Animation"]),
        movie(2, "Jumanji (1995)", &["Adventure", "Children", "Fantasy"]),
        movie(3, "Heat (1995)", &["Action", "Crime", "Thriller"]),
    ]
}

fn joined(user_id: i32, movie_id: i32, rating: &str, timestamp: i32) -> MovieLens {
    let movie = movies().into_iter().find(|m| m.id == movie_id).unwrap();
    MovieLens {
        movie_id,
        user_id,
        rating: rating.to_string(),
        timestamp,
        title: movie.title,
        genres: movie.genres,
    }
}

fn many_users(users: i32, per_user: i32) -> Vec<Rating> {
    let mut ratings = Vec::new();
    for round in 0..per_user {
        for user in (1..=users).rev() {
            ratings.push(rating(user, 1 + (user + round) % 3, "4", round));
        }
    }
    ratings
}

#[test]
fn the_constants_are_a_thousand_users_and_ten_records() {
    assert_eq!(SAMPLE_SIZE, 1000);
    assert_eq!(PREVIEW_LENGTH, 10);
}

#[test]
fn a_small_run_filters_joins_sorts_and_cuts() {
    let ratings = vec![
        rating(30, 1, "1", 100),
        rating(10, 2, "2.5", 101),
        rating(20, 3, "3", 102),
        rating(10, 1, "4", 103),
        rating(40, 2, "5", 104),
        rating(20, 1, "0.5", 105),
        rating(10, 3, "1.5", 106),
    ];
    let out = run_pipeline_with(&movies(), &ratings, 2, 4);
    assert_eq!(
        out,
        Ok(vec![
            joined(10, 2, "2.5", 101),
            joined(10, 1, "4", 103),
            joined(10, 3, "1.5", 106),
            joined(20, 3, "3", 102),
        ])
    );
}

#[test]
fn a_run_may_show_every_joined_record() {
    let ratings = vec![rating(2, 1, "1", 1), rating(1, 2, "2", 2), rating(3, 3, "3", 3)];
    let out = run_pipeline_with(&movies(), &ratings, 2, 2);
    assert_eq!(out, Ok(vec![joined(1, 2, "2", 2), joined(2, 1, "1", 1)]));
}

#[test]
fn a_run_that_shows_nothing_succeeds_with_nothing() {
    let ratings = vec![rating(2, 1, "1", 1)];
    assert_eq!(run_pipeline_with(&movies(), &ratings, 1, 0), Ok(vec![]));
    assert_eq!(run_pipeline_with(&movies(), &ratings, 0, 0), Ok(vec![]));
    assert_eq!(run_pipeline_with(&Vec::new(), &Vec::new(), 0, 0), Ok(vec![]));
}

#[test]
fn shown_records_have_users_that_never_decrease() {
    let ratings = many_users(50, 4);
    let out = run_pipeline_with(&movies(), &ratings, 20, 60).unwrap();
    assert_eq!(out.len(), 60);
    for pair in out.windows(2) {
        assert!(pair[0].user_id <= pair[1].user_id);
    }
    for record in &out {
        assert!(1 <= record.user_id && record.user_id <= 20);
    }
}

#[test]
fn shown_records_carry_the_movie_of_their_rating() {
    let movies = movies();
    let ratings = many_users(30, 3);
    let out = run_pipeline_with(&movies, &ratings, 30, 90).unwrap();
    for record in &out {
        let movie = movies.iter().find(|m| m.id == record.movie_id).unwrap();
        assert_eq!(record.title, movie.title);
        assert_eq!(record.genres, movie.genres);
        let source = ratings.iter().filter(|r| {
            r.user_id == record.user_id
                && r.movie_id == record.movie_id
                && r.timestamp == record.timestamp
                && r.rating == record.rating
        });
        assert_eq!(source.count(), 1);
    }
}

#[test]
fn too_few_users_fail_the_run() {
    let ratings = vec![rating(1, 1, "1", 1), rating(2, 2, "2", 2), rating(1, 3, "3", 3)];
    assert_eq!(run_pipeline_with(&movies(), &ratings, 3, 1), Err(PipelineError::TooFewUsers));
    assert_eq!(run_pipeline_with(&movies(), &Vec::new(), 1, 0), Err(PipelineError::TooFewUsers));
}

#[test]
fn a_rating_of_a_missing_movie_fails_the_run() {
    let ratings = vec![rating(1, 1, "1", 1), rating(2, 42, "2", 2), rating(3, 3, "3", 3)];
    assert_eq!(run_pipeline_with(&movies(), &ratings, 2, 1), Err(PipelineError::MissingMovie(42)));
    assert_eq!(run_pipeline_with(&Vec::new(), &ratings, 1, 1), Err(PipelineError::MissingMovie(1)));
}

#[test]
fn a_missing_movie_outside_the_sample_does_no_harm() {
    let ratings = vec![rating(1, 1, "1", 1), rating(2, 2, "2", 2), rating(3, 42, "3", 3)];
    assert_eq!(
        run_pipeline_with(&movies(), &ratings, 2, 2),
        Ok(vec![joined(1, 1, "1", 1), joined(2, 2, "2", 2)])
    );
}

#[test]
fn too_few_joined_records_fail_the_run() {
    let ratings = vec![rating(1, 1, "1", 1), rating(2, 2, "2", 2), rating(3, 3, "3", 3)];
    assert_eq!(run_pipeline_with(&movies(), &ratings, 2, 3), Err(PipelineError::TooFewRecords));
    assert_eq!(run_pipeline_with(&movies(), &ratings, 0, 1), Err(PipelineError::TooFewRecords));
}

#[test]
fn failures_are_told_in_the_order_of_the_steps() {
    let ratings = vec![rating(1, 42, "1", 1), rating(2, 2, "2", 2)];
    assert_eq!(run_pipeline_with(&movies(), &ratings, 3, 9), Err(PipelineError::TooFewUsers));
    assert_eq!(run_pipeline_with(&movies(), &ratings, 2, 9), Err(PipelineError::MissingMovie(42)));
    let ratings = vec![rating(1, 1, "1", 1), rating(2, 2, "2", 2)];
    assert_eq!(run_pipeline_with(&movies(), &ratings, 2, 9), Err(PipelineError::TooFewRecords));
}

#[test]
fn a_full_run_shows_ten_records_of_the_lowest_users() {
    let ratings = many_users(1200, 2);
    let out = run_pipeline(&movies(), &ratings).unwrap();
    assert_eq!(
        out,
        vec![
            joined(1, 2, "4", 0),
            joined(1, 3, "4", 1),
            joined(2, 3, "4", 0),
            joined(2, 1, "4", 1),
            joined(3, 1, "4", 0),
            joined(3, 2, "4", 1),
            joined(4, 2, "4", 0),
            joined(4, 3, "4", 1),
            joined(5, 3, "4", 0),
            joined(5, 1, "4", 1),
        ]
    );
}

#[test]
fn a_full_run_needs_a_thousand_users() {
    let ratings = many_users(999, 2);
    assert_eq!(run_pipeline(&movies(), &ratings), Err(PipelineError::TooFewUsers));
    let ratings = many_users(1000, 1);
    assert!(run_pipeline(&movies(), &ratings).is_ok());
}

#[test]
fn a_full_run_needs_ten_joined_records() {
    let mut ratings = Vec::new();
    for user in 1..=1001 {
        if user > 9 {
            ratings.push(rating(user + 5000, 1, "3", user));
        }
    }
    for user in 1..=9 {
        ratings.push(rating(user, 1, "3", user));
    }
    assert_eq!(ratings.len(), 1001);
    let out = run_pipeline(&movies(), &ratings).unwrap();
    assert_eq!(out.len(), 10);
    assert_eq!(out[9].user_id, 5010);
    assert_eq!(run_pipeline_with(&movies(), &ratings, 9, 10), Err(PipelineError::TooFewRecords));
}

#[test]
fn a_full_run_fails_on_a_missing_movie_in_the_sample() {
    let mut ratings = many_users(1200, 1);
    ratings.push(rating(1000, 999, "3", 5));
    assert_eq!(run_pipeline(&movies(), &ratings), Err(PipelineError::MissingMovie(999)));
    let mut ratings = many_users(1200, 1);
    ratings.push(rating(1001, 999, "3", 5));
    assert!(run_pipeline(&movies(), &ratings).is_ok());
}
