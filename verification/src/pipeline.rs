//! The whole run: sample the users, keep their ratings, join them with
//! the movies, order the joined records by user, and show the first few.

use vstd::prelude::*;
use crate::join::{
    filter_ratings, first_unmatched, has_id, is_rated_by, is_unmatched, join_ratings, joined,
    joined_with, lemma_first_index, lemma_rated_by_members, position_of, rated_by,
};
use crate::order::{
    ascending_by_user, lemma_sorted_by_user, lemma_sorted_by_user_counts, sort_by_user_id,
    sorted_by_user,
};
use crate::record::{viewed, Movie, MovieLens, MovieLensView, MovieView, Rating, RatingView};
use crate::users::{in_sample, sample_of, users, UserSample};

verus! {

/// How many users the sample of a run holds.
pub const SAMPLE_SIZE: usize = 1000;

/// How many joined records a run shows.
pub const PREVIEW_LENGTH: usize = 10;

/// Why a run gave no records.
#[derive(Debug, Clone, Copy, PartialEq, Eq)]
pub enum PipelineError {
    /// Fewer users gave a rating than the sample is to hold.
    TooFewUsers,
    /// A rating of the sample rates the movie of this number, which is not
    /// among the movies.
    MissingMovie(i32),
    /// The sample gave fewer ratings than records are to be shown.
    TooFewRecords,
}

/// What a run gives for `movies` and `ratings`, with a sample of
/// `sample_size` users and `length` records to show.
///
/// The sample is made of the `sample_size` users with the lowest numbers.
/// Their ratings are joined, each with the first movie of its number, the
/// joined records are put in ascending order of their users, each user's
/// records in the order of `ratings`, and the first `length` of them are
/// the result. A run fails where there are fewer users than `sample_size`;
/// else where a rating of the sample rates a movie that is not there, with
/// the first such rating's movie; else where the sample gave fewer than
/// `length` ratings.
pub open spec fn outcome(
    movies: Seq<MovieView>,
    ratings: Seq<RatingView>,
    sample_size: nat,
    length: nat,
) -> Result<Seq<MovieLensView>, PipelineError> {
    let kept = rated_by(ratings, sample_of(ratings, sample_size));
    if users(ratings).len() < sample_size {
        Err(PipelineError::TooFewUsers)
    } else {
        match first_unmatched(kept, movies) {
            Some(k) => Err(PipelineError::MissingMovie(kept[k].movie_id)),
            None => if kept.len() < length {
                Err(PipelineError::TooFewRecords)
            } else {
                Ok(sorted_by_user(joined(kept, movies)).take(length as int))
            },
        }
    }
}

/// The records that a run shows are as many as were asked for, and their
/// users never decrease from one record to the next.
pub proof fn lemma_outcome_ascending(
    movies: Seq<MovieView>,
    ratings: Seq<RatingView>,
    sample_size: nat,
    length: nat,
)
    ensures
        outcome(movies, ratings, sample_size, length) matches Ok(records) ==> records.len()
            == length && ascending_by_user(records),
{
    let kept = rated_by(ratings, sample_of(ratings, sample_size));
    lemma_sorted_by_user(joined(kept, movies));
}

/// Every record that a run shows is a rating of a user of the sample,
/// joined with the first movie that has the number of the movie it rates.
pub proof fn lemma_outcome_records(
    movies: Seq<MovieView>,
    ratings: Seq<RatingView>,
    sample_size: nat,
    length: nat,
    k: int,
)
    requires
        outcome(movies, ratings, sample_size, length) is Ok,
        0 <= k < outcome(movies, ratings, sample_size, length).unwrap().len(),
    ensures
        exists|i: int|
            {
                &&& 0 <= i < ratings.len()
                &&& in_sample(ratings, sample_size, (#[trigger] ratings[i]).user_id)
                &&& position_of(movies, ratings[i].movie_id) is Some
                &&& outcome(movies, ratings, sample_size, length).unwrap()[k] == joined_with(
                    ratings[i],
                    movies,
                )
            },
{
    let sample = sample_of(ratings, sample_size);
    let kept = rated_by(ratings, sample);
    let records = joined(kept, movies);
    let sorted = sorted_by_user(records);
    lemma_sorted_by_user(records);
    lemma_sorted_by_user_counts(records);
    assert(sorted.contains(sorted[k]));
    assert(records.contains(sorted[k]));
    let j = choose|j: int| 0 <= j < records.len() && records[j] == sorted[k];
    lemma_rated_by_members(ratings, sample, j);
    assert(ratings.contains(kept[j]));
    let i = choose|i: int| 0 <= i < ratings.len() && ratings[i] == kept[j];
    lemma_first_index(kept, is_unmatched(movies));
    assert(!is_unmatched(movies)(kept[j]));
    assert(sample.contains(ratings[i].user_id));
}

/// A run gives records only where enough users gave ratings and the
/// sample gave enough of them; with too few users it fails for that reason
/// whatever else holds.
pub proof fn lemma_outcome_needs_volume(
    movies: Seq<MovieView>,
    ratings: Seq<RatingView>,
    sample_size: nat,
    length: nat,
)
    ensures
        users(ratings).len() < sample_size <==> outcome(movies, ratings, sample_size, length)
            == Err::<Seq<MovieLensView>, PipelineError>(PipelineError::TooFewUsers),
        outcome(movies, ratings, sample_size, length) is Ok ==> users(ratings).len() >= sample_size
            && rated_by(ratings, sample_of(ratings, sample_size)).len() >= length,
        outcome(movies, ratings, sample_size, length) == Err::<Seq<MovieLensView>, PipelineError>(
            PipelineError::TooFewRecords,
        ) ==> rated_by(ratings, sample_of(ratings, sample_size)).len() < length,
{
}

/// A rating of a user of the sample that rates a movie which is not among
/// the movies makes the run fail: no such rating is dropped in silence.
pub proof fn lemma_missing_movie_fails(
    movies: Seq<MovieView>,
    ratings: Seq<RatingView>,
    sample_size: nat,
    length: nat,
    i: int,
)
    requires
        users(ratings).len() >= sample_size,
        0 <= i < ratings.len(),
        in_sample(ratings, sample_size, ratings[i].user_id),
        forall|j: int| 0 <= j < movies.len() ==> (#[trigger] movies[j]).id != ratings[i].movie_id,
    ensures
        outcome(movies, ratings, sample_size, length) matches Err(PipelineError::MissingMovie(_)),
{
    let sample = sample_of(ratings, sample_size);
    let kept = rated_by(ratings, sample);
    assert(is_rated_by(sample)(ratings[i]));
    ratings.lemma_filter_contains(is_rated_by(sample), i);
    let k = choose|k: int| 0 <= k < kept.len() && kept[k] == ratings[i];
    lemma_first_index(movies, has_id(ratings[i].movie_id));
    if position_of(movies, ratings[i].movie_id) is Some {
        let j = position_of(movies, ratings[i].movie_id).unwrap();
        assert(has_id(ratings[i].movie_id)(movies[j]));
    }
    assert(is_unmatched(movies)(kept[k]));
    lemma_first_index(kept, is_unmatched(movies));
}

/// Runs the pipeline with a sample of `sample_size` users and `length`
/// records to show.
pub fn run_pipeline_with(
    movies: &Vec<Movie>,
    ratings: &Vec<Rating>,
    sample_size: usize,
    length: usize,
) -> (out: Result<Vec<MovieLens>, PipelineError>)
    ensures
        viewed(out) == outcome(
            movies.deep_view(),
            ratings.deep_view(),
            sample_size as nat,
            length as nat,
        ),
        out matches Ok(records) ==> records.len() == length && ascending_by_user(
            records.deep_view(),
        ),
{
    proof {
        lemma_outcome_ascending(
            movies.deep_view(),
            ratings.deep_view(),
            sample_size as nat,
            length as nat,
        );
    }
    let sample = match UserSample::lowest(ratings, sample_size) {
        Some(sample) => sample,
        None => {
            return Err(PipelineError::TooFewUsers);
        },
    };
    let kept = filter_ratings(ratings, &sample);
    let records = match join_ratings(&kept, movies) {
        Ok(records) => records,
        Err(missing) => {
            return Err(PipelineError::MissingMovie(missing.movie_id));
        },
    };
    if records.len() < length {
        return Err(PipelineError::TooFewRecords);
    }
    proof {
        lemma_sorted_by_user(records.deep_view());
    }
    let mut sorted = sort_by_user_id(records);
    let ghost whole = sorted.deep_view();
    sorted.truncate(length);
    assert(sorted.deep_view() =~= whole.take(length as int));
    Ok(sorted)
}

/// Runs the pipeline: a sample of a thousand users, ten records shown.
pub fn run_pipeline(movies: &Vec<Movie>, ratings: &Vec<Rating>) -> (out: Result<
    Vec<MovieLens>,
    PipelineError,
>)
    ensures
        viewed(out) == outcome(
            movies.deep_view(),
            ratings.deep_view(),
            SAMPLE_SIZE as nat,
            PREVIEW_LENGTH as nat,
        ),
        out matches Ok(records) ==> records.len() == PREVIEW_LENGTH && ascending_by_user(
            records.deep_view(),
        ),
{
    run_pipeline_with(movies, ratings, SAMPLE_SIZE, PREVIEW_LENGTH)
}

} // verus!
