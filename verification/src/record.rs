//! The records of the corpus, and the mappings that build them from the
//! fields of a line.

use vstd::prelude::*;
use vstd::string::*;
use crate::number::{i32_of, is_decimal, is_decimal_text, parse_i32};
use crate::text::{closes, lemma_split_four, occurs_at, split, split_text};

verus! {

/// The separator between the fields of a line: two colons.
pub open spec fn field_separator() -> Seq<char> {
    seq![':', ':']
}

/// The separator between the genres of a movie: a vertical bar.
pub open spec fn genre_separator() -> Seq<char> {
    seq!['|']
}

/// The fields of a line.
pub open spec fn fields_of(line: Seq<char>) -> Seq<Seq<char>> {
    split(line, field_separator())
}

/// The genres that a genre field lists, in the order in which it lists them.
pub open spec fn genres_of(field: Seq<char>) -> Seq<Seq<char>> {
    split(field, genre_separator())
}

/// Whether `field` holds no two colons in a row.
pub open spec fn has_no_separator(field: Seq<char>) -> bool {
    forall|i: int, j: int|
        0 <= i && j == i + 1 && j < field.len() ==> !(field[i] == ':' && field[j] == ':')
}

/// Whether `field` can stand in front of a field separator and be told
/// from it: it holds no two colons in a row and does not end in a colon.
pub open spec fn is_plain_field(field: Seq<char>) -> bool {
    &&& has_no_separator(field)
    &&& field.len() > 0 ==> field.last() != ':'
}

/// A plain field is closed by the field separator.
proof fn lemma_plain_field_closes(field: Seq<char>)
    requires
        is_plain_field(field),
    ensures
        closes(field, field_separator()),
{
    let sep = field_separator();
    let text = field + sep;
    assert forall|k: int| 0 <= k < field.len() implies !occurs_at(text, sep, k) by {
        if occurs_at(text, sep, k) {
            let found = text.subrange(k, k + 2);
            assert(found[0] == sep[0] && found[1] == sep[1]);
            assert(found[0] == text[k] && found[1] == text[k + 1]);
            if k + 1 < field.len() {
                assert(field[k] == ':' && field[k + 1] == ':');
            } else {
                assert(field.last() == ':');
            }
        }
    }
}

/// A line written as four fields with the field separator between them is
/// cut into exactly these four fields, each as it was written, where the
/// first three are plain and the last holds no separator.
pub proof fn lemma_line_of_four_fields(a: Seq<char>, b: Seq<char>, c: Seq<char>, d: Seq<char>)
    requires
        is_plain_field(a),
        is_plain_field(b),
        is_plain_field(c),
        has_no_separator(d),
    ensures
        fields_of(
            a + field_separator() + b + field_separator() + c + field_separator() + d,
        ) == seq![a, b, c, d],
{
    let sep = field_separator();
    lemma_plain_field_closes(a);
    lemma_plain_field_closes(b);
    lemma_plain_field_closes(c);
    assert forall|k: int| !occurs_at(d, sep, k) by {
        if occurs_at(d, sep, k) {
            let found = d.subrange(k, k + 2);
            assert(found[0] == sep[0] && found[1] == sep[1]);
            assert(found[0] == d[k] && found[1] == d[k + 1]);
        }
    }
    lemma_split_four(a, b, c, d, sep);
}

/// Why the fields of a line do not make a record.
#[derive(Debug, Clone, Copy, PartialEq, Eq)]
pub enum RecordError {
    /// The line has fewer fields than the record takes.
    TooFewFields,
    /// The field at this position is not an integer of 32 bits.
    BadInteger(usize),
    /// The field at this position is not a decimal numeral.
    BadDecimal(usize),
}

/// A movie: its number, its title and its genres.
#[derive(Debug, PartialEq, Eq)]
pub struct Movie {
    pub id: i32,
    pub title: String,
    pub genres: Vec<String>,
}

/// What a `Movie` stands for.
pub struct MovieView {
    pub id: i32,
    pub title: Seq<char>,
    pub genres: Seq<Seq<char>>,
}

impl DeepView for Movie {
    type V = MovieView;

    open spec fn deep_view(&self) -> MovieView {
        MovieView { id: self.id, title: self.title@, genres: self.genres.deep_view() }
    }
}

/// A tag that a user gave to a movie at some time.
#[derive(Debug, PartialEq, Eq)]
pub struct Tag {
    pub movie_id: i32,
    pub user_id: i32,
    pub tag: String,
    pub timestamp: i32,
}

/// What a `Tag` stands for.
pub struct TagView {
    pub movie_id: i32,
    pub user_id: i32,
    pub tag: Seq<char>,
    pub timestamp: i32,
}

impl DeepView for Tag {
    type V = TagView;

    open spec fn deep_view(&self) -> TagView {
        TagView {
            movie_id: self.movie_id,
            user_id: self.user_id,
            tag: self.tag@,
            timestamp: self.timestamp,
        }
    }
}

/// A rating that a user gave to a movie at some time. The rating is kept
/// as the decimal numeral that was read.
#[derive(Debug, PartialEq, Eq)]
pub struct Rating {
    pub movie_id: i32,
    pub user_id: i32,
    pub rating: String,
    pub timestamp: i32,
}

/// What a `Rating` stands for.
pub struct RatingView {
    pub movie_id: i32,
    pub user_id: i32,
    pub rating: Seq<char>,
    pub timestamp: i32,
}

impl DeepView for Rating {
    type V = RatingView;

    open spec fn deep_view(&self) -> RatingView {
        RatingView {
            movie_id: self.movie_id,
            user_id: self.user_id,
            rating: self.rating@,
            timestamp: self.timestamp,
        }
    }
}

/// A rating together with the title and the genres of the movie it rates.
#[derive(Debug, PartialEq, Eq)]
pub struct MovieLens {
    pub movie_id: i32,
    pub user_id: i32,
    pub rating: String,
    pub timestamp: i32,
    pub title: String,
    pub genres: Vec<String>,
}

/// What a `MovieLens` stands for.
pub struct MovieLensView {
    pub movie_id: i32,
    pub user_id: i32,
    pub rating: Seq<char>,
    pub timestamp: i32,
    pub title: Seq<char>,
    pub genres: Seq<Seq<char>>,
}

impl DeepView for MovieLens {
    type V = MovieLensView;

    open spec fn deep_view(&self) -> MovieLensView {
        MovieLensView {
            movie_id: self.movie_id,
            user_id: self.user_id,
            rating: self.rating@,
            timestamp: self.timestamp,
            title: self.title@,
            genres: self.genres.deep_view(),
        }
    }
}

/// A copy of `texts`, text by text.
pub fn clone_texts(texts: &Vec<String>) -> (copy: Vec<String>)
    ensures
        copy.deep_view() == texts.deep_view(),
{
    let mut copy: Vec<String> = Vec::new();
    let mut i: usize = 0;
    while i < texts.len()
        invariant
            i <= texts.len(),
            copy.len() == i,
            forall|k: int| 0 <= k < i ==> copy[k]@ == texts[k]@,
        decreases texts.len() - i,
    {
        copy.push(texts[i].clone());
        i += 1;
    }
    assert(copy.deep_view() =~= texts.deep_view());
    copy
}

impl Clone for Movie {
    fn clone(&self) -> (copy: Self)
        ensures
            copy.deep_view() == self.deep_view(),
    {
        Movie { id: self.id, title: self.title.clone(), genres: clone_texts(&self.genres) }
    }
}

impl Clone for Tag {
    fn clone(&self) -> (copy: Self)
        ensures
            copy.deep_view() == self.deep_view(),
    {
        Tag {
            movie_id: self.movie_id,
            user_id: self.user_id,
            tag: self.tag.clone(),
            timestamp: self.timestamp,
        }
    }
}

impl Clone for Rating {
    fn clone(&self) -> (copy: Self)
        ensures
            copy.deep_view() == self.deep_view(),
    {
        Rating {
            movie_id: self.movie_id,
            user_id: self.user_id,
            rating: self.rating.clone(),
            timestamp: self.timestamp,
        }
    }
}

impl Clone for MovieLens {
    fn clone(&self) -> (copy: Self)
        ensures
            copy.deep_view() == self.deep_view(),
    {
        MovieLens {
            movie_id: self.movie_id,
            user_id: self.user_id,
            rating: self.rating.clone(),
            timestamp: self.timestamp,
            title: self.title.clone(),
            genres: clone_texts(&self.genres),
        }
    }
}

/// A result with what its record stands for in place of the record.
pub open spec fn viewed<T: DeepView, E>(r: Result<T, E>) -> Result<T::V, E> {
    match r {
        Ok(t) => Ok(t.deep_view()),
        Err(e) => Err(e),
    }
}

/// The movie that the fields of a line describe: its number, its title as
/// written, and its genres. Fields behind the third are not read.
pub open spec fn movie_of(fields: Seq<Seq<char>>) -> Result<MovieView, RecordError> {
    if fields.len() < 3 {
        Err(RecordError::TooFewFields)
    } else {
        match i32_of(fields[0]) {
            None => Err(RecordError::BadInteger(0)),
            Some(id) => Ok(MovieView { id, title: fields[1], genres: genres_of(fields[2]) }),
        }
    }
}

/// The tag that the fields of a line describe: the user, the movie, the tag
/// as written, and the time. Fields behind the fourth are not read.
pub open spec fn tag_of(fields: Seq<Seq<char>>) -> Result<TagView, RecordError> {
    if fields.len() < 4 {
        Err(RecordError::TooFewFields)
    } else if i32_of(fields[0]) is None {
        Err(RecordError::BadInteger(0))
    } else if i32_of(fields[1]) is None {
        Err(RecordError::BadInteger(1))
    } else if i32_of(fields[3]) is None {
        Err(RecordError::BadInteger(3))
    } else {
        Ok(
            TagView {
                movie_id: i32_of(fields[1]).unwrap(),
                user_id: i32_of(fields[0]).unwrap(),
                tag: fields[2],
                timestamp: i32_of(fields[3]).unwrap(),
            },
        )
    }
}

/// The rating that the fields of a line describe: the user, the movie, the
/// rating, which has to be a decimal numeral, and the time. Fields behind
/// the fourth are not read.
pub open spec fn rating_of(fields: Seq<Seq<char>>) -> Result<RatingView, RecordError> {
    if fields.len() < 4 {
        Err(RecordError::TooFewFields)
    } else if i32_of(fields[0]) is None {
        Err(RecordError::BadInteger(0))
    } else if i32_of(fields[1]) is None {
        Err(RecordError::BadInteger(1))
    } else if !is_decimal(fields[2]) {
        Err(RecordError::BadDecimal(2))
    } else if i32_of(fields[3]) is None {
        Err(RecordError::BadInteger(3))
    } else {
        Ok(
            RatingView {
                movie_id: i32_of(fields[1]).unwrap(),
                user_id: i32_of(fields[0]).unwrap(),
                rating: fields[2],
                timestamp: i32_of(fields[3]).unwrap(),
            },
        )
    }
}

/// Cuts a line into its fields.
pub fn split_fields(line: &str) -> (fields: Vec<String>)
    ensures
        fields.deep_view() == fields_of(line@),
{
    proof {
        reveal_strlit("::");
        assert("::"@ =~= field_separator());
    }
    split_text(line, "::")
}

/// Cuts a genre field into the genres it lists.
pub fn split_genres(field: &str) -> (genres: Vec<String>)
    ensures
        genres.deep_view() == genres_of(field@),
{
    proof {
        reveal_strlit("|");
        assert("|"@ =~= genre_separator());
    }
    split_text(field, "|")
}

/// Reads the field at `index` as an integer.
fn integer_field(fields: &Vec<String>, index: usize) -> (r: Result<i32, RecordError>)
    requires
        index < fields.len(),
    ensures
        r == match i32_of(fields.deep_view()[index as int]) {
            Some(v) => Ok::<i32, RecordError>(v),
            None => Err(RecordError::BadInteger(index)),
        },
{
    match parse_i32(fields[index].as_str()) {
        Some(v) => Ok(v),
        None => Err(RecordError::BadInteger(index)),
    }
}

impl Movie {
    /// Builds a movie from the fields of a line.
    pub fn from_fields(fields: Vec<String>) -> (r: Result<Movie, RecordError>)
        ensures
            viewed(r) == movie_of(fields.deep_view()),
    {
        if fields.len() < 3 {
            return Err(RecordError::TooFewFields);
        }
        let id = integer_field(&fields, 0)?;
        let genres = split_genres(fields[2].as_str());
        Ok(Movie { id, title: fields[1].clone(), genres })
    }
}

impl Tag {
    /// Builds a tag from the fields of a line.
    pub fn from_fields(fields: Vec<String>) -> (r: Result<Tag, RecordError>)
        ensures
            viewed(r) == tag_of(fields.deep_view()),
    {
        if fields.len() < 4 {
            return Err(RecordError::TooFewFields);
        }
        let user_id = integer_field(&fields, 0)?;
        let movie_id = integer_field(&fields, 1)?;
        let timestamp = integer_field(&fields, 3)?;
        Ok(Tag { movie_id, user_id, tag: fields[2].clone(), timestamp })
    }
}

impl Rating {
    /// Builds a rating from the fields of a line.
    pub fn from_fields(fields: Vec<String>) -> (r: Result<Rating, RecordError>)
        ensures
            viewed(r) == rating_of(fields.deep_view()),
    {
        if fields.len() < 4 {
            return Err(RecordError::TooFewFields);
        }
        let user_id = integer_field(&fields, 0)?;
        let movie_id = integer_field(&fields, 1)?;
        if !is_decimal_text(fields[2].as_str()) {
            return Err(RecordError::BadDecimal(2));
        }
        let timestamp = integer_field(&fields, 3)?;
        Ok(Rating { movie_id, user_id, rating: fields[2].clone(), timestamp })
    }
}

} // verus!
