//! Numerals: signed decimal integers, and the decimal notation of ratings.

use vstd::prelude::*;
use crate::text::chars_of;

verus! {

/// Whether `c` is one of the ten decimal digits.
pub open spec fn is_digit(c: char) -> bool {
    '0' <= c <= '9'
}

/// Whether `c` is a plus or a minus sign.
pub open spec fn is_sign(c: char) -> bool {
    c == '+' || c == '-'
}

/// The number that the digit `c` stands for.
pub open spec fn digit_value(c: char) -> int {
    c as int - '0' as int
}

/// Whether `s` holds digits only.
pub open spec fn all_digits(s: Seq<char>) -> bool {
    forall|i: int| 0 <= i < s.len() ==> is_digit(#[trigger] s[i])
}

/// The number that a run of digits stands for, read in base ten.
pub open spec fn digits_value(s: Seq<char>) -> nat
    decreases s.len(),
{
    if s.len() == 0 {
        0
    } else {
        (10 * digits_value(s.drop_last()) + digit_value(s.last())) as nat
    }
}

/// `s` without the sign that it may begin with.
pub open spec fn unsigned_part(s: Seq<char>) -> Seq<char> {
    if s.len() > 0 && is_sign(s[0]) {
        s.skip(1)
    } else {
        s
    }
}

/// The integer that `s` denotes: an optional sign, then one digit or more
/// and nothing else. Any other text denotes none.
pub open spec fn int_of(s: Seq<char>) -> Option<int> {
    let digits = unsigned_part(s);
    if digits.len() == 0 || !all_digits(digits) {
        None
    } else if s[0] == '-' {
        Some(-digits_value(digits))
    } else {
        Some(digits_value(digits) as int)
    }
}

/// The integer that `s` denotes, where it fits in 32 bits.
pub open spec fn i32_of(s: Seq<char>) -> Option<i32> {
    match int_of(s) {
        Some(v) => if i32::MIN <= v <= i32::MAX {
            Some(v as i32)
        } else {
            None
        },
        None => None,
    }
}

/// A run of digits stands for at least as much as any of its beginnings.
proof fn lemma_digits_value_grows(s: Seq<char>, k: int)
    requires
        all_digits(s),
        0 <= k <= s.len(),
    ensures
        digits_value(s.take(k)) <= digits_value(s),
    decreases s.len() - k,
{
    if k == s.len() {
        assert(s.take(k) =~= s);
    } else {
        lemma_digits_value_grows(s, k + 1);
        assert(s.take(k + 1).drop_last() =~= s.take(k));
        assert(is_digit(s.take(k + 1).last()));
    }
}

/// Reads `s` as a signed decimal integer of 32 bits.
pub fn parse_i32(s: &str) -> (r: Option<i32>)
    ensures
        r == i32_of(s@),
{
    let text = chars_of(s);
    let n = text.len();
    if n == 0 {
        return None;
    }
    let negative = text[0] == '-';
    let first: usize = if text[0] == '-' || text[0] == '+' {
        1
    } else {
        0
    };
    if first == n {
        return None;
    }
    let ghost digits = unsigned_part(s@);
    assert(digits =~= s@.subrange(first as int, n as int));
    let mut acc: i64 = 0;
    let mut i: usize = first;
    while i < n
        invariant
            text@ == s@,
            n == text.len(),
            first <= i <= n,
            digits == unsigned_part(s@),
            digits == s@.subrange(first as int, n as int),
            all_digits(digits.take(i - first)),
            acc == digits_value(digits.take(i - first)),
            acc <= 2147483648,
        decreases n - i,
    {
        let c = text[i];
        if !(c >= '0' && c <= '9') {
            assert(!is_digit(digits[i - first]));
            return None;
        }
        let d: i64 = (c as u32 - '0' as u32) as i64;
        acc = acc * 10 + d;
        proof {
            let upto = digits.take(i - first + 1);
            assert(upto.drop_last() =~= digits.take(i - first));
            assert(upto.last() == c);
            assert(all_digits(upto));
            if acc > 2147483648 && all_digits(digits) {
                lemma_digits_value_grows(digits, i - first + 1);
            }
        }
        if acc > 2147483648 {
            return None;
        }
        i += 1;
    }
    assert(digits.take(n - first) =~= digits);
    if negative {
        Some((-acc) as i32)
    } else if acc > 2147483647 {
        None
    } else {
        Some(acc as i32)
    }
}

/// The end of the run of digits in `s` that begins at `from`.
pub open spec fn digits_end(s: Seq<char>, from: int) -> int
    decreases s.len() - from,
{
    if 0 <= from < s.len() && is_digit(s[from]) {
        digits_end(s, from + 1)
    } else {
        from
    }
}

/// Whether `c` is the letter `small`, written small or as a capital.
pub open spec fn is_letter(c: char, small: char) -> bool {
    c == small || ('A' <= c <= 'Z' && c as int + 32 == small as int)
}

/// Whether `s` is `word` but for the case of its letters; `word` is
/// written in small letters.
pub open spec fn spells(s: Seq<char>, word: Seq<char>) -> bool {
    &&& s.len() == word.len()
    &&& forall|i: int| 0 <= i < s.len() ==> is_letter(#[trigger] s[i], word[i])
}

/// Whether `x` is an exponent: the letter e, an optional sign, then one
/// digit or more and nothing else.
pub open spec fn is_exponent(x: Seq<char>) -> bool {
    &&& x.len() > 0
    &&& is_letter(x[0], 'e')
    &&& unsigned_part(x.skip(1)).len() > 0
    &&& all_digits(unsigned_part(x.skip(1)))
}

/// Whether `body` is an unsigned number: a run of digits, then maybe a
/// point and another run of digits, with one digit at least in the two
/// runs, then maybe an exponent, and nothing else.
pub open spec fn is_number(body: Seq<char>) -> bool {
    let point = digits_end(body, 0);
    let has_point = point < body.len() && body[point] == '.';
    let end = if has_point {
        digits_end(body, point + 1)
    } else {
        point
    };
    let digits = if has_point {
        end - 1
    } else {
        end
    };
    &&& digits >= 1
    &&& (end == body.len() || is_exponent(body.skip(end)))
}

/// Whether `s` is a decimal numeral: an optional sign, then a number such
/// as `4`, `3.5`, `.5`, `5.` or `2.5e-3`, or one of the words `inf`,
/// `infinity` and `nan` in letters of either case.
pub open spec fn is_decimal(s: Seq<char>) -> bool {
    let body = unsigned_part(s);
    ||| is_number(body)
    ||| spells(body, seq!['i', 'n', 'f'])
    ||| spells(body, seq!['i', 'n', 'f', 'i', 'n', 'i', 't', 'y'])
    ||| spells(body, seq!['n', 'a', 'n'])
}

/// Whether `m` is a mantissa: digits only, or digits with one point before,
/// among or behind them; in either case one digit at least.
pub open spec fn is_mantissa(m: Seq<char>) -> bool {
    ||| m.len() > 0 && all_digits(m)
    ||| exists|p: int|
        0 <= p < m.len() && m.len() > 1 && m[p] == '.' && all_digits(#[trigger] m.take(p))
            && all_digits(m.skip(p + 1))
}

/// Whether `body` is made of a mantissa and, maybe, an exponent behind it.
pub open spec fn has_number_form(body: Seq<char>) -> bool {
    ||| is_mantissa(body)
    ||| exists|e: int|
        0 <= e < body.len() && is_mantissa(#[trigger] body.take(e)) && is_exponent(body.skip(e))
}

/// The run of digits that begins at `from` ends at `end` where the
/// characters between the two are digits and the one at `end`, if there is
/// one, is none.
proof fn lemma_digits_end(s: Seq<char>, from: int, end: int)
    requires
        0 <= from <= end <= s.len(),
        forall|k: int| from <= k < end ==> is_digit(#[trigger] s[k]),
        end < s.len() ==> !is_digit(s[end]),
    ensures
        digits_end(s, from) == end,
    decreases end - from,
{
    if from < end {
        lemma_digits_end(s, from + 1, end);
    }
}

/// Where a run of digits ends: the characters of the run are digits, and
/// the character behind it, if there is one, is none.
proof fn lemma_digits_end_is(s: Seq<char>, from: int)
    requires
        0 <= from <= s.len(),
    ensures
        from <= digits_end(s, from) <= s.len(),
        forall|k: int| from <= k < digits_end(s, from) ==> is_digit(#[trigger] s[k]),
        digits_end(s, from) < s.len() ==> !is_digit(s[digits_end(s, from)]),
    decreases s.len() - from,
{
    if from < s.len() && is_digit(s[from]) {
        lemma_digits_end_is(s, from + 1);
    }
}

/// The mantissa `m`, found at the beginning of `body` with no digit and no
/// point behind it, is what the two runs of digits of `body` cover.
proof fn lemma_mantissa_runs(body: Seq<char>, e: int)
    requires
        0 <= e <= body.len(),
        is_mantissa(body.take(e)),
        e < body.len() ==> !is_digit(body[e]) && body[e] != '.',
    ensures
        ({
            let point = digits_end(body, 0);
            let has_point = point < body.len() && body[point] == '.';
            if has_point {
                digits_end(body, point + 1) == e && e > 1
            } else {
                point == e && e > 0
            }
        }),
{
    let m = body.take(e);
    if m.len() > 0 && all_digits(m) {
        assert forall|k: int| 0 <= k < e implies is_digit(#[trigger] body[k]) by {
            assert(is_digit(m[k]));
        }
        lemma_digits_end(body, 0, e);
    } else {
        let p = choose|p: int|
            0 <= p < m.len() && m.len() > 1 && m[p] == '.' && all_digits(#[trigger] m.take(p))
                && all_digits(m.skip(p + 1));
        assert forall|k: int| 0 <= k < p implies is_digit(#[trigger] body[k]) by {
            assert(is_digit(m.take(p)[k]));
        }
        assert(body[p] == m[p]);
        lemma_digits_end(body, 0, p);
        assert forall|k: int| p + 1 <= k < e implies is_digit(#[trigger] body[k]) by {
            assert(is_digit(m.skip(p + 1)[k - p - 1]));
        }
        lemma_digits_end(body, p + 1, e);
    }
}

/// An unsigned number is a mantissa with, maybe, an exponent behind it,
/// and nothing else is.
pub proof fn lemma_number_form(body: Seq<char>)
    ensures
        is_number(body) <==> has_number_form(body),
{
    let point = digits_end(body, 0);
    lemma_digits_end_is(body, 0);
    let has_point = point < body.len() && body[point] == '.';
    let end = if has_point {
        digits_end(body, point + 1)
    } else {
        point
    };
    if has_point {
        lemma_digits_end_is(body, point + 1);
    }
    if is_number(body) {
        let m = body.take(end);
        if has_point {
            assert(m[point] == '.');
            assert forall|k: int| 0 <= k < m.take(point).len() implies is_digit(
                #[trigger] m.take(point)[k],
            ) by {
                assert(is_digit(body[k]));
            }
            assert forall|k: int| 0 <= k < m.skip(point + 1).len() implies is_digit(
                #[trigger] m.skip(point + 1)[k],
            ) by {
                assert(is_digit(body[point + 1 + k]));
            }
            assert(all_digits(m.take(point)));
            assert(all_digits(m.skip(point + 1)));
            assert(0 <= point < m.len() && m.len() > 1);
        } else {
            assert forall|k: int| 0 <= k < m.len() implies is_digit(#[trigger] m[k]) by {
                assert(is_digit(body[k]));
            }
        }
        assert(is_mantissa(m));
        if end == body.len() {
            assert(m =~= body);
        }
    }
    if has_number_form(body) {
        if is_mantissa(body) {
            assert(body.take(body.len() as int) =~= body);
            lemma_mantissa_runs(body, body.len() as int);
        } else {
            let e = choose|e: int|
                0 <= e < body.len() && is_mantissa(#[trigger] body.take(e)) && is_exponent(
                    body.skip(e),
                );
            assert(body.skip(e)[0] == body[e]);
            lemma_mantissa_runs(body, e);
        }
    }
}

/// Finds the end of the run of digits that begins at `from`.
fn digit_run(text: &Vec<char>, from: usize) -> (end: usize)
    requires
        from <= text.len(),
    ensures
        end == digits_end(text@, from as int),
        from <= end <= text.len(),
{
    let mut i: usize = from;
    while i < text.len() && text[i] >= '0' && text[i] <= '9'
        invariant
            from <= i <= text.len(),
            digits_end(text@, from as int) == digits_end(text@, i as int),
        decreases text.len() - i,
    {
        i += 1;
    }
    i
}

/// Whether `text` holds digits only from `from` on.
fn digits_only(text: &Vec<char>, from: usize) -> (ok: bool)
    requires
        from <= text.len(),
    ensures
        ok == all_digits(text@.skip(from as int)),
{
    let mut i: usize = from;
    while i < text.len()
        invariant
            from <= i <= text.len(),
            forall|k: int| from <= k < i ==> is_digit(#[trigger] text@[k]),
        decreases text.len() - i,
    {
        if !(text[i] >= '0' && text[i] <= '9') {
            assert(!is_digit(text@.skip(from as int)[i - from]));
            return false;
        }
        i += 1;
    }
    assert forall|k: int| 0 <= k < text@.skip(from as int).len() implies is_digit(
        #[trigger] text@.skip(from as int)[k],
    ) by {
        assert(is_digit(text@[from + k]));
    }
    true
}

/// Whether `text` is `word` but for the case of its letters.
fn spells_word(text: &Vec<char>, word: &Vec<char>) -> (ok: bool)
    ensures
        ok == spells(text@, word@),
{
    if text.len() != word.len() {
        return false;
    }
    let mut i: usize = 0;
    while i < text.len()
        invariant
            text.len() == word.len(),
            i <= text.len(),
            forall|k: int| 0 <= k < i ==> is_letter(#[trigger] text@[k], word@[k]),
        decreases text.len() - i,
    {
        let c = text[i];
        let w = word[i];
        let capital = c >= 'A' && c <= 'Z' && w >= 'a' && w <= 'z' && c as u32 + 32 == w as u32;
        if !(c == w || capital) {
            assert(!is_letter(text@[i as int], word@[i as int]));
            return false;
        }
        i += 1;
    }
    true
}

/// Whether `body` is an unsigned number.
fn is_number_text(body: &Vec<char>) -> (ok: bool)
    ensures
        ok == is_number(body@),
{
    let n = body.len();
    let point = digit_run(body, 0);
    let has_point = point < n && body[point] == '.';
    let end = if has_point {
        digit_run(body, point + 1)
    } else {
        point
    };
    let digits = if has_point {
        end - 1
    } else {
        end
    };
    if digits < 1 {
        return false;
    }
    if end == n {
        return true;
    }
    let ghost x = body@.skip(end as int);
    let e = body[end];
    if !(e == 'e' || e == 'E') {
        assert(x[0] == e);
        return false;
    }
    let signed = end + 1 < n && (body[end + 1] == '+' || body[end + 1] == '-');
    let from = if signed {
        end + 2
    } else {
        end + 1
    };
    proof {
        assert(x[0] == e);
        assert(x.skip(1) =~= body@.skip(end + 1));
        if end + 1 < n {
            assert(x.skip(1)[0] == body@[end + 1]);
        }
        assert(unsigned_part(x.skip(1)) =~= body@.skip(from as int));
    }
    from < n && digits_only(body, from)
}

/// Whether `s` is a decimal numeral.
pub fn is_decimal_text(s: &str) -> (ok: bool)
    ensures
        ok == is_decimal(s@),
{
    let text = chars_of(s);
    let n = text.len();
    let first: usize = if n > 0 && (text[0] == '+' || text[0] == '-') {
        1
    } else {
        0
    };
    let mut body: Vec<char> = Vec::new();
    let mut i: usize = first;
    while i < n
        invariant
            n == text.len(),
            first <= i <= n,
            body@ == text@.subrange(first as int, i as int),
        decreases n - i,
    {
        body.push(text[i]);
        i += 1;
    }
    assert(body@ =~= unsigned_part(s@));
    if is_number_text(&body) {
        return true;
    }
    let inf: Vec<char> = vec!['i', 'n', 'f'];
    let infinity: Vec<char> = vec!['i', 'n', 'f', 'i', 'n', 'i', 't', 'y'];
    let nan: Vec<char> = vec!['n', 'a', 'n'];
    assert(inf@ =~= seq!['i', 'n', 'f']);
    assert(infinity@ =~= seq!['i', 'n', 'f', 'i', 'n', 'i', 't', 'y']);
    assert(nan@ =~= seq!['n', 'a', 'n']);
    spells_word(&body, &inf) || spells_word(&body, &infinity) || spells_word(&body, &nan)
}

} // verus!
