//! Comparing texts, and telling which texts are floating-point literals.

use vstd::prelude::*;
use vstd::utf8::encode_utf8;

verus! {

/// Whether two texts hold the same characters.
pub fn text_eq(left: &str, right: &str) -> (equal: bool)
    ensures
        equal == (left@ == right@),
{
    let a = left.as_bytes();
    let b = right.as_bytes();
    proof {
        vstd::utf8::encode_utf8_decode_utf8(left@);
        vstd::utf8::encode_utf8_decode_utf8(right@);
    }
    if a.len() != b.len() {
        return false;
    }
    let mut i: usize = 0;
    while i < a.len()
        invariant
            i <= a@.len(),
            a@.len() == b@.len(),
            a@ == encode_utf8(left@),
            b@ == encode_utf8(right@),
            forall|k: int| 0 <= k < i ==> a@[k] == b@[k],
        decreases a@.len() - i,
    {
        if a[i] != b[i] {
            return false;
        }
        i += 1;
    }
    assert(a@ =~= b@);
    true
}

/// A decimal digit.
pub open spec fn is_digit(c: char) -> bool {
    '0' <= c <= '9'
}

/// Decimal digits and nothing else, possibly none.
pub open spec fn all_digits(s: Seq<char>) -> bool {
    forall|i: int| 0 <= i < s.len() ==> is_digit(#[trigger] s[i])
}

/// Digits with at most one point among them, and at least one digit.
pub open spec fn is_mantissa(s: Seq<char>) -> bool {
    ||| s.len() > 0 && all_digits(s)
    ||| exists|point: int|
        {
            &&& 0 <= point < s.len()
            &&& #[trigger] s[point] == '.'
            &&& all_digits(s.take(point))
            &&& all_digits(s.skip(point + 1))
            &&& s.len() > 1
        }
}

/// Nothing, or the letter `e` in either case, perhaps a sign, and at least one
/// digit.
pub open spec fn is_exponent(s: Seq<char>) -> bool {
    ||| s.len() == 0
    ||| {
        &&& s[0] == 'e' || s[0] == 'E'
        &&& {
            let digits = unsigned_part(s.skip(1));
            digits.len() > 0 && all_digits(digits)
        }
    }
}

/// A mantissa and an optional exponent.
pub open spec fn is_number(s: Seq<char>) -> bool {
    exists|split: int|
        {
            &&& 0 <= split <= s.len()
            &&& is_mantissa(#[trigger] s.take(split))
            &&& is_exponent(s.skip(split))
        }
}

/// What follows an optional sign.
pub open spec fn unsigned_part(s: Seq<char>) -> Seq<char> {
    if s.len() > 0 && (s[0] == '+' || s[0] == '-') {
        s.skip(1)
    } else {
        s
    }
}

/// The lower-case form of an ASCII letter; every other character is itself.
pub open spec fn lowered(c: char) -> char {
    if 'A' <= c <= 'Z' {
        (c as u32 + 32) as char
    } else {
        c
    }
}

/// The same letters as `word`, whatever their case; `word` is in lower case.
pub open spec fn is_word(s: Seq<char>, word: Seq<char>) -> bool {
    s.map_values(|c: char| lowered(c)) == word
}

/// The texts that denote a floating-point number: an optional sign, followed
/// either by `inf`, `infinity` or `nan` in any case, or by a mantissa and an
/// optional exponent.
pub open spec fn is_float_literal(s: Seq<char>) -> bool {
    let body = unsigned_part(s);
    ||| is_word(body, "inf"@)
    ||| is_word(body, "infinity"@)
    ||| is_word(body, "nan"@)
    ||| is_number(body)
}

/// Collects the characters of a text.
fn chars_of(text: &str) -> (chars: Vec<char>)
    ensures
        chars@ == text@,
{
    let mut chars: Vec<char> = Vec::new();
    for c in it: text.chars()
        invariant
            chars@ =~= it.seq().take(it.index()),
            it.seq() == text@,
    {
        chars.push(c);
    }
    chars
}

/// The end of the run of digits that starts at `start`.
fn digits_end(chars: &Vec<char>, start: usize) -> (end: usize)
    requires
        start <= chars@.len(),
    ensures
        start <= end <= chars@.len(),
        forall|k: int| start <= k < end ==> is_digit(#[trigger] chars@[k]),
        end < chars@.len() ==> !is_digit(chars@[end as int]),
{
    let mut end = start;
    while end < chars.len() && '0' <= chars[end] && chars[end] <= '9'
        invariant
            start <= end <= chars@.len(),
            forall|k: int| start <= k < end ==> is_digit(#[trigger] chars@[k]),
        decreases chars@.len() - end,
    {
        end += 1;
    }
    end
}

/// The lower-case form of an ASCII letter; every other character is itself.
fn lower(c: char) -> (low: char)
    ensures
        low == lowered(c),
{
    if 'A' <= c && c <= 'Z' {
        (c as u8 + 32) as char
    } else {
        c
    }
}

/// Whether the characters from `start` on spell `word`, whatever their case.
fn spells(chars: &Vec<char>, start: usize, word: &str) -> (equal: bool)
    requires
        start <= chars@.len(),
    ensures
        equal == is_word(chars@.skip(start as int), word@),
{
    let letters = chars_of(word);
    let ghost low = chars@.skip(start as int).map_values(|c: char| lowered(c));
    if chars.len() - start != letters.len() {
        assert(low.len() != word@.len());
        return false;
    }
    let mut i: usize = 0;
    while i < letters.len()
        invariant
            i <= letters@.len(),
            letters@ == word@,
            start + letters@.len() == chars.len(),
            low == chars@.skip(start as int).map_values(|c: char| lowered(c)),
            low.len() == word@.len(),
            forall|k: int| 0 <= k < i ==> low[k] == word@[k],
        decreases letters@.len() - i,
    {
        assert(low[i as int] == lowered(chars@[start + i]));
        if lower(chars[start + i]) != letters[i] {
            return false;
        }
        i += 1;
    }
    assert(low =~= word@);
    true
}

/// Where the digits of a body stop, and where they stop again behind a point,
/// decide whether it is a mantissa with an exponent.
proof fn lemma_scan(body: Seq<char>, first: int, last: int)
    requires
        0 <= first <= last <= body.len(),
        all_digits(body.take(first)),
        first < body.len() ==> !is_digit(body[first]),
        if first < body.len() && body[first] == '.' {
            &&& first < last
            &&& all_digits(body.subrange(first + 1, last))
            &&& last < body.len() ==> !is_digit(body[last])
        } else {
            last == first
        },
    ensures
        is_number(body) <==> {
            &&& last > 0
            &&& last != first ==> last > 1
            &&& is_exponent(body.skip(last))
        },
{
    assert(forall|k: int| 0 <= k < first ==> is_digit(body[k])) by {
        assert forall|k: int| 0 <= k < first implies is_digit(body[k]) by {
            assert(body.take(first)[k] == body[k]);
        }
    }
    assert forall|split: int|
        {
            &&& 0 <= split <= body.len()
            &&& is_mantissa(#[trigger] body.take(split))
            &&& is_exponent(body.skip(split))
        } implies split == last && last > 0 && (last != first ==> last > 1) by {
        let head = body.take(split);
        assert(split < body.len() ==> body.skip(split)[0] == body[split]);
        if split > 0 && all_digits(head) {
            assert(forall|k: int| 0 <= k < split ==> is_digit(body[k])) by {
                assert forall|k: int| 0 <= k < split implies is_digit(body[k]) by {
                    assert(head[k] == body[k]);
                }
            }
            assert(split == first);
        } else {
            let point = choose|point: int|
                {
                    &&& 0 <= point < head.len()
                    &&& #[trigger] head[point] == '.'
                    &&& all_digits(head.take(point))
                    &&& all_digits(head.skip(point + 1))
                    &&& head.len() > 1
                };
            assert(forall|k: int| 0 <= k < point ==> is_digit(body[k])) by {
                assert forall|k: int| 0 <= k < point implies is_digit(body[k]) by {
                    assert(head.take(point)[k] == body[k]);
                }
            }
            assert(body[point] == '.');
            assert(point == first);
            assert(forall|k: int| point < k < split ==> is_digit(body[k])) by {
                assert forall|k: int| point < k < split implies is_digit(body[k]) by {
                    assert(head.skip(point + 1)[k - point - 1] == body[k]);
                }
            }
            let tail = body.subrange(first + 1, last);
            if last < split {
                assert(is_digit(body[last]));
            }
            if split < last {
                assert(tail[split - first - 1] == body[split]);
            }
        }
    }
    if last > 0 && (last != first ==> last > 1) {
        let head = body.take(last);
        if last == first {
            assert(all_digits(head));
        } else {
            assert(head[first] == '.');
            assert(head.take(first) =~= body.take(first));
            assert(head.skip(first + 1) =~= body.subrange(first + 1, last));
        }
        assert(is_mantissa(head));
    }
}

/// Whether the characters from `start` on are an exponent or nothing.
fn exponent_at(chars: &Vec<char>, start: usize) -> (answer: bool)
    requires
        start <= chars@.len(),
    ensures
        answer == is_exponent(chars@.skip(start as int)),
{
    let len = chars.len();
    let ghost exponent = chars@.skip(start as int);
    if start == len {
        return true;
    }
    if chars[start] != 'e' && chars[start] != 'E' {
        return false;
    }
    let digits: usize = if start + 1 < len && (chars[start + 1] == '+' || chars[start + 1] == '-') {
        start + 2
    } else {
        start + 1
    };
    let end = digits_end(chars, digits);
    proof {
        let rest = unsigned_part(exponent.skip(1));
        assert(exponent.skip(1) =~= chars@.skip(start + 1));
        assert(rest =~= chars@.skip(digits as int));
        if end < len {
            assert(rest[end - digits] == chars@[end as int]);
            assert(!all_digits(rest));
        } else {
            assert forall|k: int| 0 <= k < rest.len() implies is_digit(#[trigger] rest[k]) by {
                assert(rest[k] == chars@[digits + k]);
            }
        }
    }
    end > digits && end == len
}

/// Whether the characters from `start` on are a mantissa with an optional
/// exponent.
fn number_at(chars: &Vec<char>, start: usize) -> (answer: bool)
    requires
        start <= chars@.len(),
    ensures
        answer == is_number(chars@.skip(start as int)),
{
    let len = chars.len();
    let ghost body = chars@.skip(start as int);
    let first = digits_end(chars, start);
    let last = if first < len && chars[first] == '.' {
        digits_end(chars, first + 1)
    } else {
        first
    };
    proof {
        let head = body.take(first - start);
        assert forall|k: int| 0 <= k < head.len() implies is_digit(#[trigger] head[k]) by {
            assert(head[k] == chars@[start + k]);
        }
        if first < len && chars@[first as int] == '.' {
            let tail = body.subrange(first - start + 1, last - start);
            assert forall|k: int| 0 <= k < tail.len() implies is_digit(#[trigger] tail[k]) by {
                assert(tail[k] == chars@[first + 1 + k]);
            }
        }
        lemma_scan(body, first - start, last - start);
        assert(body.skip(last - start) =~= chars@.skip(last as int));
    }
    last > start && (last == first || last - start > 1) && exponent_at(chars, last)
}

/// Whether a text denotes a floating-point number.
pub fn is_float(text: &str) -> (answer: bool)
    ensures
        answer == is_float_literal(text@),
{
    let chars = chars_of(text);
    let start: usize = if chars.len() > 0 && (chars[0] == '+' || chars[0] == '-') {
        1
    } else {
        0
    };
    assert(chars@.skip(start as int) =~= unsigned_part(text@));
    spells(&chars, start, "inf") || spells(&chars, start, "infinity") || spells(
        &chars,
        start,
        "nan",
    ) || number_at(&chars, start)
}

}
