//! Keeping the ratings of a sample of users, and joining each rating with
//! the movie it rates.

use vstd::prelude::*;
use crate::record::{clone_texts, Movie, MovieLens, MovieLensView, MovieView, Rating, RatingView};
use crate::users::UserSample;

verus! {

/// The position of the first item of `s` that passes `test`.
pub open spec fn first_index<T>(s: Seq<T>, test: spec_fn(T) -> bool) -> Option<int>
    decreases s.len(),
{
    if s.len() == 0 {
        None
    } else {
        match first_index(s.drop_last(), test) {
            Some(i) => Some(i),
            None => if test(s.last()) {
                Some(s.len() - 1)
            } else {
                None
            },
        }
    }
}

/// What `first_index` finds passes the test and nothing before it does;
/// where it finds nothing, nothing passes.
pub proof fn lemma_first_index<T>(s: Seq<T>, test: spec_fn(T) -> bool)
    ensures
        match first_index(s, test) {
            Some(i) => 0 <= i < s.len() && test(s[i]) && forall|j: int|
                0 <= j < i ==> !test(#[trigger] s[j]),
            None => forall|j: int| 0 <= j < s.len() ==> !test(#[trigger] s[j]),
        },
    decreases s.len(),
{
    if s.len() > 0 {
        lemma_first_index(s.drop_last(), test);
        assert forall|j: int| 0 <= j < s.len() - 1 implies s.drop_last()[j] == s[j] by {}
        match first_index(s.drop_last(), test) {
            Some(i) => {
                assert(s.drop_last()[i] == s[i]);
                assert forall|j: int| 0 <= j < i implies !test(#[trigger] s[j]) by {
                    assert(s.drop_last()[j] == s[j]);
                }
            },
            None => {
                assert forall|j: int| 0 <= j < s.len() - 1 implies !test(#[trigger] s[j]) by {
                    assert(s.drop_last()[j] == s[j]);
                }
            },
        }
    }
}

/// The test that a rating was given by one of `users`.
pub open spec fn is_rated_by(users: Set<i32>) -> spec_fn(RatingView) -> bool {
    |r: RatingView| users.contains(r.user_id)
}

/// The ratings that `users` gave, in the order of `ratings`.
pub open spec fn rated_by(ratings: Seq<RatingView>, users: Set<i32>) -> Seq<RatingView> {
    ratings.filter(is_rated_by(users))
}

/// The test that a movie has the number `id`.
pub open spec fn has_id(id: i32) -> spec_fn(MovieView) -> bool {
    |m: MovieView| m.id == id
}

/// The position of the first of `movies` that has the number `id`.
pub open spec fn position_of(movies: Seq<MovieView>, id: i32) -> Option<int> {
    first_index(movies, has_id(id))
}

/// The test that a rating rates none of `movies`.
pub open spec fn is_unmatched(movies: Seq<MovieView>) -> spec_fn(RatingView) -> bool {
    |r: RatingView| position_of(movies, r.movie_id) is None
}

/// The position of the first of `ratings` that rates none of `movies`.
pub open spec fn first_unmatched(ratings: Seq<RatingView>, movies: Seq<MovieView>) -> Option<int> {
    first_index(ratings, is_unmatched(movies))
}

/// The rating `r` with the title and the genres of the movie `m`.
pub open spec fn join_one(r: RatingView, m: MovieView) -> MovieLensView {
    MovieLensView {
        movie_id: m.id,
        user_id: r.user_id,
        rating: r.rating,
        timestamp: r.timestamp,
        title: m.title,
        genres: m.genres,
    }
}

/// The rating `r` joined with the first of `movies` that has the number
/// of the movie it rates.
pub open spec fn joined_with(r: RatingView, movies: Seq<MovieView>) -> MovieLensView {
    join_one(r, movies[position_of(movies, r.movie_id).unwrap()])
}

/// Each of `ratings`, in their order, joined with its movie.
pub open spec fn joined(ratings: Seq<RatingView>, movies: Seq<MovieView>) -> Seq<MovieLensView> {
    Seq::new(ratings.len(), |k: int| joined_with(ratings[k], movies))
}

/// Every joined record has the number, the title and the genres of the
/// first movie whose number is that of the movie the rating rates, and the
/// user, the rating and the time of that rating.
pub proof fn lemma_joined_record(ratings: Seq<RatingView>, movies: Seq<MovieView>, k: int)
    requires
        0 <= k < ratings.len(),
        first_unmatched(ratings, movies) is None,
    ensures
        ({
            let record = joined(ratings, movies)[k];
            let rating = ratings[k];
            &&& position_of(movies, rating.movie_id) matches Some(i)
            &&& 0 <= i < movies.len()
            &&& movies[i].id == rating.movie_id
            &&& forall|j: int| 0 <= j < i ==> (#[trigger] movies[j]).id != rating.movie_id
            &&& record.movie_id == rating.movie_id
            &&& record.title == movies[i].title
            &&& record.genres == movies[i].genres
            &&& record.user_id == rating.user_id
            &&& record.rating == rating.rating
            &&& record.timestamp == rating.timestamp
        }),
{
    lemma_first_index(ratings, is_unmatched(movies));
    assert(!is_unmatched(movies)(ratings[k]));
    lemma_first_index(movies, has_id(ratings[k].movie_id));
    let i = position_of(movies, ratings[k].movie_id).unwrap();
    assert(has_id(ratings[k].movie_id)(movies[i]));
    assert forall|j: int| 0 <= j < i implies (#[trigger] movies[j]).id != ratings[k].movie_id by {
        assert(!has_id(ratings[k].movie_id)(movies[j]));
    }
}

/// The ratings that are kept are ratings of `users`, and each is one of
/// `ratings`.
pub proof fn lemma_rated_by_members(ratings: Seq<RatingView>, users: Set<i32>, k: int)
    requires
        0 <= k < rated_by(ratings, users).len(),
    ensures
        users.contains(rated_by(ratings, users)[k].user_id),
        ratings.contains(rated_by(ratings, users)[k]),
{
    let kept = rated_by(ratings, users);
    ratings.lemma_filter_pred(is_rated_by(users), k);
    assert(kept.contains(kept[k]));
    ratings.lemma_filter_contains_rev(is_rated_by(users), kept[k]);
}

/// A rating of one of `users` is kept as often as `ratings` hold it.
pub proof fn lemma_rated_by_counts(ratings: Seq<RatingView>, users: Set<i32>, r: RatingView)
    requires
        users.contains(r.user_id),
    ensures
        rated_by(ratings, users).to_multiset().count(r) == ratings.to_multiset().count(r),
    decreases ratings.len(),
{
    broadcast use vstd::seq_lib::to_multiset_build;

    if ratings.len() == 0 {
        reveal(Seq::filter);
    } else {
        let front = ratings.drop_last();
        let last = ratings.last();
        lemma_rated_by_counts(front, users, r);
        assert(front.push(last) =~= ratings);
        front.lemma_filter_push(last, is_rated_by(users));
    }
}

/// Where every rating has its movie, the joined records hold the record
/// of a rating as often as the ratings hold that rating.
pub proof fn lemma_joined_counts(ratings: Seq<RatingView>, movies: Seq<MovieView>, r: RatingView)
    requires
        first_unmatched(ratings, movies) is None,
        position_of(movies, r.movie_id) is Some,
    ensures
        joined(ratings, movies).to_multiset().count(joined_with(r, movies))
            == ratings.to_multiset().count(r),
    decreases ratings.len(),
{
    broadcast use vstd::seq_lib::to_multiset_build;

    if ratings.len() == 0 {
        vstd::seq_lib::to_multiset_contains(joined(ratings, movies), joined_with(r, movies));
        vstd::seq_lib::to_multiset_contains(ratings, r);
    } else {
        let front = ratings.drop_last();
        let last = ratings.last();
        lemma_joined_counts(front, movies, r);
        assert(front.push(last) =~= ratings);
        assert(joined(front, movies).push(joined_with(last, movies)) =~= joined(ratings, movies));
        lemma_first_index(ratings, is_unmatched(movies));
        assert(!is_unmatched(movies)(ratings[ratings.len() - 1]));
        lemma_first_index(movies, has_id(last.movie_id));
        lemma_first_index(movies, has_id(r.movie_id));
        assert(has_id(last.movie_id)(movies[position_of(movies, last.movie_id).unwrap()]));
        assert(has_id(r.movie_id)(movies[position_of(movies, r.movie_id).unwrap()]));
        assert(joined_with(last, movies) == joined_with(r, movies) <==> last == r);
    }
}

/// Keeping the ratings of `users` and joining them, where each of them
/// has its movie, gives records of `users` only, and the record of each
/// rating of `users` as often as `ratings` hold that rating: once for a
/// rating that `ratings` hold once.
pub proof fn lemma_filter_then_join(
    ratings: Seq<RatingView>,
    movies: Seq<MovieView>,
    users: Set<i32>,
)
    requires
        first_unmatched(rated_by(ratings, users), movies) is None,
    ensures
        forall|k: int|
            0 <= k < joined(rated_by(ratings, users), movies).len() ==> users.contains(
                (#[trigger] joined(rated_by(ratings, users), movies)[k]).user_id,
            ),
        forall|r: RatingView|
            users.contains(r.user_id) && position_of(movies, r.movie_id) is Some ==> joined(
                rated_by(ratings, users),
                movies,
            ).to_multiset().count(#[trigger] joined_with(r, movies)) == ratings.to_multiset().count(
                r,
            ),
{
    let kept = rated_by(ratings, users);
    let records = joined(kept, movies);
    assert forall|k: int| 0 <= k < records.len() implies users.contains(
        (#[trigger] records[k]).user_id,
    ) by {
        lemma_rated_by_members(ratings, users, k);
    }
    assert forall|r: RatingView|
        users.contains(r.user_id) && position_of(movies, r.movie_id) is Some implies records.to_multiset().count(
        #[trigger] joined_with(r, movies),
    ) == ratings.to_multiset().count(r) by {
        lemma_rated_by_counts(ratings, users, r);
        lemma_joined_counts(kept, movies, r);
    }
}

/// A rating rates a movie that is not there.
#[derive(Debug, Clone, Copy, PartialEq, Eq)]
pub struct MissingMovie {
    pub movie_id: i32,
}

/// Keeps the ratings that the users of `sample` gave, in their order.
pub fn filter_ratings<'a>(ratings: &'a Vec<Rating>, sample: &UserSample) -> (kept: Vec<&'a Rating>)
    ensures
        kept.deep_view() == rated_by(ratings.deep_view(), sample@),
{
    let ghost all = ratings.deep_view();
    let mut kept: Vec<&Rating> = Vec::new();
    let mut i: usize = 0;
    proof {
        reveal(Seq::filter);
        assert(all.take(0) =~= Seq::empty());
        assert(kept.deep_view() =~= Seq::empty());
    }
    while i < ratings.len()
        invariant
            all == ratings.deep_view(),
            i <= ratings.len(),
            kept.deep_view() == rated_by(all.take(i as int), sample@),
        decreases ratings.len() - i,
    {
        let ghost before = kept.deep_view();
        proof {
            all.take(i as int).lemma_filter_push(all[i as int], is_rated_by(sample@));
            assert(all.take(i as int).push(all[i as int]) =~= all.take(i + 1));
        }
        if sample.contains(ratings[i].user_id) {
            kept.push(&ratings[i]);
            assert(kept.deep_view() =~= before.push(all[i as int]));
        }
        i += 1;
    }
    assert(all.take(ratings.len() as int) =~= all);
    kept
}

/// Finds the first of `movies` that has the number `id`.
pub fn find_movie<'a>(movies: &'a Vec<Movie>, id: i32) -> (found: Option<&'a Movie>)
    ensures
        match position_of(movies.deep_view(), id) {
            Some(i) => found matches Some(m) && m.deep_view() == movies.deep_view()[i],
            None => found is None,
        },
{
    let ghost all = movies.deep_view();
    let mut i: usize = 0;
    while i < movies.len()
        invariant
            all == movies.deep_view(),
            i <= movies.len(),
            position_of(all.take(i as int), id) is None,
        decreases movies.len() - i,
    {
        proof {
            assert(all.take(i + 1).drop_last() =~= all.take(i as int));
            assert(all.take(i + 1).last() == movies[i as int].deep_view());
        }
        if movies[i].id == id {
            proof {
                lemma_first_index(all, has_id(id));
                lemma_first_index(all.take(i as int), has_id(id));
                assert forall|j: int| 0 <= j < i implies all[j].id != id by {
                    assert(all.take(i as int)[j] == all[j]);
                    assert(!has_id(id)(all.take(i as int)[j]));
                }
                assert(has_id(id)(all[i as int]));
            }
            return Some(&movies[i]);
        }
        i += 1;
    }
    assert(all.take(movies.len() as int) =~= all);
    None
}

/// Joins each of `ratings`, in their order, with the first of `movies`
/// that has the number of the movie it rates. The first rating that rates
/// none of `movies` ends the join, which then reports that movie's number.
pub fn join_ratings(ratings: &Vec<&Rating>, movies: &Vec<Movie>) -> (out: Result<
    Vec<MovieLens>,
    MissingMovie,
>)
    ensures
        match first_unmatched(ratings.deep_view(), movies.deep_view()) {
            Some(k) => out == Err::<Vec<MovieLens>, MissingMovie>(
                MissingMovie { movie_id: ratings.deep_view()[k].movie_id },
            ),
            None => out matches Ok(records) && records.deep_view() == joined(
                ratings.deep_view(),
                movies.deep_view(),
            ),
        },
{
    let ghost all = ratings.deep_view();
    let ghost films = movies.deep_view();
    let mut records: Vec<MovieLens> = Vec::new();
    let mut i: usize = 0;
    while i < ratings.len()
        invariant
            all == ratings.deep_view(),
            films == movies.deep_view(),
            i <= ratings.len(),
            records.len() == i,
            first_unmatched(all.take(i as int), films) is None,
            forall|k: int| 0 <= k < i ==> records[k].deep_view() == joined_with(all[k], films),
        decreases ratings.len() - i,
    {
        let rating = ratings[i];
        proof {
            assert(all.take(i + 1).drop_last() =~= all.take(i as int));
            assert(all.take(i + 1).last() == rating.deep_view());
        }
        match find_movie(movies, rating.movie_id) {
            None => {
                proof {
                    lemma_first_index(all, is_unmatched(films));
                    lemma_first_index(all.take(i as int), is_unmatched(films));
                    assert forall|j: int| 0 <= j < i implies !is_unmatched(films)(all[j]) by {
                        assert(all.take(i as int)[j] == all[j]);
                    }
                    assert(is_unmatched(films)(all[i as int]));
                }
                return Err(MissingMovie { movie_id: rating.movie_id });
            },
            Some(movie) => {
                records.push(
                    MovieLens {
                        movie_id: movie.id,
                        user_id: rating.user_id,
                        rating: rating.rating.clone(),
                        timestamp: rating.timestamp,
                        title: movie.title.clone(),
                        genres: clone_texts(&movie.genres),
                    },
                );
            },
        }
        i += 1;
    }
    assert(all.take(ratings.len() as int) =~= all);
    assert(records.deep_view() =~= joined(all, films));
    Ok(records)
}

} // verus!
