//! Loading, joining and sampling of a movie-rating corpus.
//!
//! Three kinds of delimited text lines (movies, tags, ratings) are turned
//! into typed records. Ratings are then restricted to a sample of users,
//! joined with the movies they refer to, ordered by user and cut down to a
//! short preview.

pub mod text;
pub mod number;
pub mod record;
pub mod loader;
pub mod order;
pub mod users;
pub mod join;
pub mod pipeline;
