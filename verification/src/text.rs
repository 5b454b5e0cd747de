//! Cutting text into fields at a separator, and putting fields together again.

use vstd::prelude::*;
use vstd::string::*;

verus! {

/// Whether `sep` stands in `s` at position `i`.
pub open spec fn occurs_at(s: Seq<char>, sep: Seq<char>, i: int) -> bool {
    &&& 0 <= i
    &&& i + sep.len() <= s.len()
    &&& s.subrange(i, i + sep.len()) == sep
}

/// The position of the first occurrence of `sep` in `s` at or after `from`.
/// An empty separator is taken to occur nowhere.
pub open spec fn next_occurrence(s: Seq<char>, sep: Seq<char>, from: int) -> Option<int>
    decreases s.len() - from,
{
    if sep.len() == 0 || from + sep.len() > s.len() {
        None
    } else if occurs_at(s, sep, from) {
        Some(from)
    } else {
        next_occurrence(s, sep, from + 1)
    }
}

/// The fields of the part of `s` that begins at `start`: the text up to the
/// next separator, then the fields of what follows that separator.
pub open spec fn fields_from(s: Seq<char>, sep: Seq<char>, start: int) -> Seq<Seq<char>>
    decreases s.len() - start,
    when 0 <= start <= s.len() && sep.len() > 0
    via fields_from_decreases
{
    match next_occurrence(s, sep, start) {
        Some(i) => seq![s.subrange(start, i)] + fields_from(s, sep, i + sep.len()),
        None => seq![s.subrange(start, s.len() as int)],
    }
}

#[via_fn]
proof fn fields_from_decreases(s: Seq<char>, sep: Seq<char>, start: int) {
    lemma_next_occurrence(s, sep, start);
}

/// The fields of `s`: the pieces between the occurrences of `sep`, found
/// from the left, none overlapping another. A text without the separator is
/// one field, and so is any text when the separator is empty.
pub open spec fn split(s: Seq<char>, sep: Seq<char>) -> Seq<Seq<char>> {
    if sep.len() == 0 {
        seq![s]
    } else {
        fields_from(s, sep, 0)
    }
}

/// `fields` put together with `sep` between each two neighbours.
pub open spec fn join(fields: Seq<Seq<char>>, sep: Seq<char>) -> Seq<char>
    decreases fields.len(),
{
    if fields.len() == 0 {
        Seq::empty()
    } else if fields.len() == 1 {
        fields[0]
    } else {
        fields[0] + sep + join(fields.skip(1), sep)
    }
}

/// Whether `sep`, written behind `field`, is found there and nowhere
/// earlier, so that the field ends exactly where it was meant to.
pub open spec fn closes(field: Seq<char>, sep: Seq<char>) -> bool {
    forall|k: int| 0 <= k < field.len() ==> !occurs_at(field + sep, sep, k)
}

/// Whether `fields` can be told apart again once joined with `sep`: every
/// field but the last is closed by the separator, and the last holds none.
pub open spec fn separable(fields: Seq<Seq<char>>, sep: Seq<char>) -> bool {
    &&& fields.len() > 0
    &&& sep.len() > 0
    &&& forall|i: int| 0 <= i < fields.len() - 1 ==> closes(#[trigger] fields[i], sep)
    &&& forall|k: int| !occurs_at(fields.last(), sep, k)
}

/// What `next_occurrence` finds is an occurrence, and the first one.
pub proof fn lemma_next_occurrence(s: Seq<char>, sep: Seq<char>, from: int)
    requires
        sep.len() > 0,
    ensures
        match next_occurrence(s, sep, from) {
            Some(i) => from <= i && occurs_at(s, sep, i) && forall|k: int|
                from <= k < i ==> !occurs_at(s, sep, k),
            None => forall|k: int| from <= k ==> !occurs_at(s, sep, k),
        },
    decreases s.len() - from,
{
    if from + sep.len() > s.len() {
    } else if occurs_at(s, sep, from) {
    } else {
        lemma_next_occurrence(s, sep, from + 1);
    }
}

/// Text in front of `s` moves the occurrences of `sep` and adds none
/// behind its own end.
proof fn lemma_next_occurrence_shift(head: Seq<char>, s: Seq<char>, sep: Seq<char>, from: int)
    requires
        sep.len() > 0,
        0 <= from,
    ensures
        next_occurrence(head + s, sep, head.len() + from) == match next_occurrence(s, sep, from) {
            Some(i) => Some(head.len() + i),
            None => None,
        },
    decreases s.len() - from,
{
    let whole = head + s;
    let at = head.len() + from;
    if from + sep.len() <= s.len() {
        assert(whole.subrange(at, at + sep.len()) =~= s.subrange(from, from + sep.len()));
        if !occurs_at(s, sep, from) {
            lemma_next_occurrence_shift(head, s, sep, from + 1);
        }
    }
}

/// Text in front of `s` leaves the fields of `s` as they are.
proof fn lemma_fields_from_shift(head: Seq<char>, s: Seq<char>, sep: Seq<char>, start: int)
    requires
        sep.len() > 0,
        0 <= start <= s.len(),
    ensures
        fields_from(head + s, sep, head.len() + start) == fields_from(s, sep, start),
    decreases s.len() - start,
{
    let whole = head + s;
    lemma_next_occurrence_shift(head, s, sep, start);
    lemma_next_occurrence(s, sep, start);
    match next_occurrence(s, sep, start) {
        Some(i) => {
            lemma_fields_from_shift(head, s, sep, i + sep.len());
            assert(whole.subrange(head.len() + start, head.len() + i) =~= s.subrange(start, i));
        },
        None => {
            assert(whole.subrange(head.len() + start, whole.len() as int) =~= s.subrange(
                start,
                s.len() as int,
            ));
        },
    }
}

/// There is always at least one field.
pub proof fn lemma_fields_from_nonempty(s: Seq<char>, sep: Seq<char>, start: int)
    requires
        sep.len() > 0,
        0 <= start <= s.len(),
    ensures
        fields_from(s, sep, start).len() >= 1,
{
    lemma_next_occurrence(s, sep, start);
}

/// Joining the fields of the part of `s` from `start` on gives that part back.
proof fn lemma_join_fields_from(s: Seq<char>, sep: Seq<char>, start: int)
    requires
        sep.len() > 0,
        0 <= start <= s.len(),
    ensures
        join(fields_from(s, sep, start), sep) == s.subrange(start, s.len() as int),
    decreases s.len() - start,
{
    lemma_next_occurrence(s, sep, start);
    match next_occurrence(s, sep, start) {
        Some(i) => {
            let rest = fields_from(s, sep, i + sep.len());
            let all = seq![s.subrange(start, i)] + rest;
            lemma_join_fields_from(s, sep, i + sep.len());
            lemma_fields_from_nonempty(s, sep, i + sep.len());
            assert(all.skip(1) =~= rest);
            assert(s.subrange(start, i) + s.subrange(i, i + sep.len()) + s.subrange(
                i + sep.len(),
                s.len() as int,
            ) =~= s.subrange(start, s.len() as int));
        },
        None => {},
    }
}

/// Splitting loses nothing: the fields of a text, joined with the separator
/// they were cut at, are that text.
pub proof fn lemma_join_split(s: Seq<char>, sep: Seq<char>)
    ensures
        join(split(s, sep), sep) == s,
{
    if sep.len() > 0 {
        lemma_join_fields_from(s, sep, 0);
        assert(s.subrange(0, s.len() as int) =~= s);
    }
}

/// Splitting undoes joining: fields that are separable come back exactly,
/// each as it was and in the same order, when their joined text is split.
pub proof fn lemma_split_join(fields: Seq<Seq<char>>, sep: Seq<char>)
    requires
        separable(fields, sep),
    ensures
        split(join(fields, sep), sep) == fields,
    decreases fields.len(),
{
    let text = join(fields, sep);
    if fields.len() == 1 {
        assert(text == fields.last());
        lemma_next_occurrence(text, sep, 0);
        assert(text.subrange(0, text.len() as int) =~= text);
        assert(seq![fields[0]] =~= fields);
    } else {
        let first = fields[0];
        let rest = fields.skip(1);
        let tail = join(rest, sep);
        assert(separable(rest, sep)) by {
            assert(rest.last() == fields.last());
            assert forall|i: int| 0 <= i < rest.len() - 1 implies closes(#[trigger] rest[i], sep) by {
                assert(rest[i] == fields[i + 1]);
            }
        }
        lemma_split_join(rest, sep);
        assert(occurs_at(text, sep, first.len() as int)) by {
            assert(text.subrange(first.len() as int, (first.len() + sep.len()) as int) =~= sep);
        }
        assert forall|k: int| 0 <= k < first.len() implies !occurs_at(text, sep, k) by {
            assert(!occurs_at(first + sep, sep, k));
            assert(text.subrange(k, k + sep.len()) =~= (first + sep).subrange(k, k + sep.len()));
        }
        lemma_next_occurrence(text, sep, 0);
        assert(next_occurrence(text, sep, 0) == Some(first.len() as int));
        lemma_fields_from_shift(first + sep, tail, sep, 0);
        assert(fields_from(text, sep, (first.len() + sep.len()) as int) == rest);
        assert(text.subrange(0, first.len() as int) =~= first);
        assert(seq![first] + rest =~= fields);
    }
}

/// Four fields written with the separator between them are found again, as
/// they were, when the line is split.
pub proof fn lemma_split_four(a: Seq<char>, b: Seq<char>, c: Seq<char>, d: Seq<char>, sep: Seq<char>)
    requires
        sep.len() > 0,
        closes(a, sep),
        closes(b, sep),
        closes(c, sep),
        forall|k: int| !occurs_at(d, sep, k),
    ensures
        split(a + sep + b + sep + c + sep + d, sep) == seq![a, b, c, d],
{
    let fields = seq![a, b, c, d];
    reveal_with_fuel(join, 4);
    assert(fields.skip(1) =~= seq![b, c, d]);
    assert(fields.skip(1).skip(1) =~= seq![c, d]);
    assert(fields.skip(1).skip(1).skip(1) =~= seq![d]);
    assert(join(fields, sep) =~= a + sep + b + sep + c + sep + d);
    lemma_split_join(fields, sep);
}

/// The characters of `s`, one by one.
pub fn chars_of(s: &str) -> (out: Vec<char>)
    ensures
        out@ == s@,
{
    let mut out: Vec<char> = Vec::new();
    for c in it: s.chars()
        invariant
            it.seq() == s@,
            out@ == s@.take(it.index() as int),
    {
        out.push(c);
    }
    out
}

/// Whether `sep` stands in `s` at position `i`.
fn matches_at(s: &Vec<char>, sep: &Vec<char>, i: usize) -> (found: bool)
    requires
        i + sep.len() <= s.len(),
    ensures
        found == occurs_at(s@, sep@, i as int),
{
    let mut k: usize = 0;
    while k < sep.len()
        invariant
            k <= sep.len(),
            i + sep.len() <= s.len(),
            forall|j: int| 0 <= j < k ==> s[i + j] == sep[j],
        decreases sep.len() - k,
    {
        if s[i + k] != sep[k] {
            assert(s@.subrange(i as int, i + sep.len())[k as int] != sep@[k as int]);
            return false;
        }
        k += 1;
    }
    assert(s@.subrange(i as int, i + sep.len()) =~= sep@);
    true
}

/// Cuts `s` into its fields at every occurrence of `sep`.
pub fn split_text(s: &str, sep: &str) -> (out: Vec<String>)
    ensures
        out.deep_view() == split(s@, sep@),
{
    let text = chars_of(s);
    let mark = chars_of(sep);
    let n = text.len();
    let m = mark.len();
    let mut out: Vec<String> = Vec::new();
    if m == 0 || m > n {
        proof {
            if m > 0 {
                lemma_next_occurrence(s@, sep@, 0);
                assert(s@.subrange(0, s@.len() as int) =~= s@);
            }
        }
        out.push(s.to_owned());
        assert(out.deep_view() =~= seq![s@]);
        return out;
    }
    let mut start: usize = 0;
    let mut i: usize = 0;
    while i <= n - m
        invariant
            text@ == s@,
            mark@ == sep@,
            n == text.len(),
            m == mark.len(),
            0 < m <= n,
            start <= i <= n,
            forall|k: int| start <= k < i ==> !occurs_at(s@, sep@, k),
            split(s@, sep@) == out.deep_view() + fields_from(s@, sep@, start as int),
        decreases n - i,
    {
        if matches_at(&text, &mark, i) {
            proof {
                lemma_next_occurrence(s@, sep@, start as int);
                assert(out.deep_view().push(s@.subrange(start as int, i as int)) + fields_from(
                    s@,
                    sep@,
                    i + m,
                ) =~= out.deep_view() + fields_from(s@, sep@, start as int));
            }
            let ghost before = out.deep_view();
            out.push(s.substring_char(start, i).to_owned());
            assert(out.deep_view() =~= before.push(s@.subrange(start as int, i as int)));
            i += m;
            start = i;
        } else {
            i += 1;
        }
    }
    proof {
        lemma_next_occurrence(s@, sep@, start as int);
    }
    let ghost before = out.deep_view();
    out.push(s.substring_char(start, n).to_owned());
    assert(out.deep_view() =~= before.push(s@.subrange(start as int, n as int)));
    out
}

} // verus!
