//! Loading records from the lines of a file, one record for each line.

use vstd::prelude::*;
use crate::record::{
    fields_of, movie_of, rating_of, split_fields, tag_of, viewed, Movie, MovieView, Rating,
    RatingView, RecordError, Tag, TagView,
};

verus! {

/// Why a load failed: the first line that made no record, counted from
/// zero, and what was wrong with it.
#[derive(Debug, Clone, Copy, PartialEq, Eq)]
pub struct LoadError {
    pub line: usize,
    pub cause: RecordError,
}

/// Whether `builder`, given the fields of `line`, may return `r`.
pub open spec fn builds<T, F: Fn(Vec<String>) -> Result<T, RecordError>>(
    builder: F,
    line: Seq<char>,
    r: Result<T, RecordError>,
) -> bool {
    exists|fields: Vec<String>|
        fields.deep_view() == fields_of(line) && #[trigger] builder.ensures((fields,), r)
}

/// Whether `builder`, given the fields of `line`, may return a record.
pub open spec fn builds_record<T, F: Fn(Vec<String>) -> Result<T, RecordError>>(
    builder: F,
    line: Seq<char>,
) -> bool {
    exists|t: T| builds(builder, line, Ok(t))
}

/// Whether `out` is the load of `lines` under the mapping `record_of`:
/// either every line makes a record and `out` holds them line by line, or
/// `out` names the first line that makes none, with the mapping's reason.
pub open spec fn is_load<V>(
    lines: Seq<Seq<char>>,
    record_of: spec_fn(Seq<Seq<char>>) -> Result<V, RecordError>,
    out: Result<Seq<V>, LoadError>,
) -> bool {
    match out {
        Ok(records) => {
            &&& records.len() == lines.len()
            &&& forall|i: int|
                0 <= i < lines.len() ==> record_of(fields_of(lines[i])) == Ok::<V, RecordError>(
                    #[trigger] records[i],
                )
        },
        Err(e) => {
            &&& e.line < lines.len()
            &&& record_of(fields_of(lines[e.line as int])) == Err::<V, RecordError>(e.cause)
            &&& forall|j: int|
                0 <= j < e.line ==> record_of(fields_of(#[trigger] lines[j])) is Ok
        },
    }
}

/// Builds one record from each line, in the order of the lines: the line
/// is cut into its fields and `builder` makes the record. The load stops
/// at the first line for which `builder` fails, and reports it.
pub fn load_csv<T, F: Fn(Vec<String>) -> Result<T, RecordError>>(
    lines: &Vec<String>,
    builder: F,
) -> (out: Result<Vec<T>, LoadError>)
    requires
        forall|i: int, fields: Vec<String>|
            0 <= i < lines.len() && fields.deep_view() == fields_of(#[trigger] lines[i]@)
                ==> #[trigger] builder.requires((fields,)),
    ensures
        match out {
            Ok(records) => {
                &&& records.len() == lines.len()
                &&& forall|i: int|
                    0 <= i < lines.len() ==> builds(builder, lines[i]@, Ok(#[trigger] records[i]))
            },
            Err(e) => {
                &&& e.line < lines.len()
                &&& builds(builder, lines[e.line as int]@, Err(e.cause))
                &&& forall|j: int|
                    0 <= j < e.line ==> builds_record(builder, #[trigger] lines[j]@)
            },
        },
{
    let mut records: Vec<T> = Vec::new();
    let mut i: usize = 0;
    while i < lines.len()
        invariant
            i <= lines.len(),
            records.len() == i,
            forall|k: int, fields: Vec<String>|
                0 <= k < lines.len() && fields.deep_view() == fields_of(#[trigger] lines[k]@)
                    ==> #[trigger] builder.requires((fields,)),
            forall|k: int| 0 <= k < i ==> builds(builder, lines[k]@, Ok(#[trigger] records[k])),
        decreases lines.len() - i,
    {
        let fields = split_fields(lines[i].as_str());
        match builder(fields) {
            Ok(record) => {
                records.push(record);
            },
            Err(cause) => {
                assert(builds(builder, lines[i as int]@, Err(cause)));
                assert forall|j: int| 0 <= j < i implies builds_record(
                    builder,
                    #[trigger] lines[j]@,
                ) by {
                    assert(builds(builder, lines[j]@, Ok(records[j])));
                }
                return Err(LoadError { line: i, cause });
            },
        }
        i += 1;
    }
    Ok(records)
}

/// Loads the movies that `lines` describe.
pub fn load_movies(lines: &Vec<String>) -> (out: Result<Vec<Movie>, LoadError>)
    ensures
        is_load(lines.deep_view(), |fields: Seq<Seq<char>>| movie_of(fields), viewed(out)),
{
    let out = load_csv(lines, Movie::from_fields);
    proof {
        match &out {
            Ok(records) => {
                assert forall|i: int| 0 <= i < lines.len() implies movie_of(
                    fields_of(lines.deep_view()[i]),
                ) == Ok::<MovieView, RecordError>(#[trigger] records.deep_view()[i]) by {
                    assert(builds(Movie::from_fields, lines[i]@, Ok(records[i])));
                }
            },
            Err(e) => {
                assert forall|j: int| 0 <= j < e.line implies movie_of(
                    fields_of(#[trigger] lines.deep_view()[j]),
                ) is Ok by {
                    assert(builds_record(Movie::from_fields, lines[j]@));
                    let t = choose|t: Movie| builds(Movie::from_fields, lines[j]@, Ok(t));
                    assert(builds(Movie::from_fields, lines[j]@, Ok(t)));
                }
            },
        }
    }
    out
}

/// Loads the tags that `lines` describe.
pub fn load_tags(lines: &Vec<String>) -> (out: Result<Vec<Tag>, LoadError>)
    ensures
        is_load(lines.deep_view(), |fields: Seq<Seq<char>>| tag_of(fields), viewed(out)),
{
    let out = load_csv(lines, Tag::from_fields);
    proof {
        match &out {
            Ok(records) => {
                assert forall|i: int| 0 <= i < lines.len() implies tag_of(
                    fields_of(lines.deep_view()[i]),
                ) == Ok::<TagView, RecordError>(#[trigger] records.deep_view()[i]) by {
                    assert(builds(Tag::from_fields, lines[i]@, Ok(records[i])));
                }
            },
            Err(e) => {
                assert forall|j: int| 0 <= j < e.line implies tag_of(
                    fields_of(#[trigger] lines.deep_view()[j]),
                ) is Ok by {
                    assert(builds_record(Tag::from_fields, lines[j]@));
                    let t = choose|t: Tag| builds(Tag::from_fields, lines[j]@, Ok(t));
                    assert(builds(Tag::from_fields, lines[j]@, Ok(t)));
                }
            },
        }
    }
    out
}

/// Loads the ratings that `lines` describe.
pub fn load_ratings(lines: &Vec<String>) -> (out: Result<Vec<Rating>, LoadError>)
    ensures
        is_load(lines.deep_view(), |fields: Seq<Seq<char>>| rating_of(fields), viewed(out)),
{
    let out = load_csv(lines, Rating::from_fields);
    proof {
        match &out {
            Ok(records) => {
                assert forall|i: int| 0 <= i < lines.len() implies rating_of(
                    fields_of(lines.deep_view()[i]),
                ) == Ok::<RatingView, RecordError>(#[trigger] records.deep_view()[i]) by {
                    assert(builds(Rating::from_fields, lines[i]@, Ok(records[i])));
                }
            },
            Err(e) => {
                assert forall|j: int| 0 <= j < e.line implies rating_of(
                    fields_of(#[trigger] lines.deep_view()[j]),
                ) is Ok by {
                    assert(builds_record(Rating::from_fields, lines[j]@));
                    let t = choose|t: Rating| builds(Rating::from_fields, lines[j]@, Ok(t));
                    assert(builds(Rating::from_fields, lines[j]@, Ok(t)));
                }
            },
        }
    }
    out
}

} // verus!
