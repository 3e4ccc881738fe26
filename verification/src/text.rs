//! What the alphabet logic needs of strings: case folding, substrings by
//! character position, the test for an integer literal, and the order of
//! strings.
//!
//! Contracts speak of a string through its view, the sequence of its
//! characters.

use substring::Substring;
use vstd::prelude::*;
use vstd::std_specs::iter::IteratorSpec;

verus! {

/// The lowercase form of a string, as `str::to_lowercase` computes it.
pub uninterp spec fn lowercase(s: Seq<char>) -> Seq<char>;

/// The uppercase form of a string, as `str::to_uppercase` computes it.
pub uninterp spec fn uppercase(s: Seq<char>) -> Seq<char>;

/// `str::to_lowercase`. The result depends on the characters alone; the
/// contract gives it the name [`lowercase`] and claims nothing more of it.
#[verifier::external_body]
pub(crate) fn to_lowercase(s: &str) -> (r: String)
    ensures
        r@ == lowercase(s@),
{
    s.to_lowercase()
}

/// `str::to_uppercase`. The result depends on the characters alone; the
/// contract gives it the name [`uppercase`] and claims nothing more of it.
#[verifier::external_body]
pub(crate) fn to_uppercase(s: &str) -> (r: String)
    ensures
        r@ == uppercase(s@),
{
    s.to_uppercase()
}

/// The characters of `s` from position `start` up to, not including,
/// position `end`. Positions past the end of `s` count as its end, and a
/// range that ends at or before its start is empty.
pub open spec fn char_range(s: Seq<char>, start: int, end: int) -> Seq<char> {
    if end <= start {
        Seq::empty()
    } else if start >= s.len() {
        Seq::empty()
    } else if end >= s.len() {
        s.subrange(start, s.len() as int)
    } else {
        s.subrange(start, end)
    }
}

/// `substring::Substring::substring` on `str`. It counts characters, not
/// bytes, never fails, and cuts the range down to the string where the
/// range reaches past it.
#[verifier::external_body]
pub(crate) fn substring(s: &str, start: usize, end: usize) -> (r: &str)
    ensures
        r@ == char_range(s@, start as int, end as int),
{
    s.substring(start, end)
}

/// Whether `c` is one of the ten ASCII digits.
pub open spec fn is_digit(c: char) -> bool {
    '0' <= c && c <= '9'
}

/// Whether `s` is made of ASCII digits only (the empty string is).
pub open spec fn all_digits(s: Seq<char>) -> bool {
    forall|i: int| 0 <= i < s.len() ==> is_digit(#[trigger] s[i])
}

/// Whether `s` begins with a sign, `+` or `-`.
pub open spec fn has_sign(s: Seq<char>) -> bool {
    s.len() > 0 && (s[0] == '+' || s[0] == '-')
}

/// Whether `s` is an integer literal: an optional `+` or `-`, then one or
/// more ASCII digits and nothing else. The digits may be of any number.
pub open spec fn is_integer_literal(s: Seq<char>) -> bool {
    let digits = if has_sign(s) {
        s.skip(1)
    } else {
        s
    };
    digits.len() > 0 && all_digits(digits)
}

/// One or more ASCII digits are an integer literal, however many they
/// are.
pub proof fn lemma_digits_are_literal(s: Seq<char>)
    requires
        s.len() >= 1,
        all_digits(s),
    ensures
        is_integer_literal(s),
{
    assert(is_digit(s[0]));
}

/// A string is no integer literal where one of its characters is neither
/// an ASCII digit nor a sign in front.
pub proof fn lemma_other_character_is_no_literal(s: Seq<char>, i: int)
    requires
        0 <= i < s.len(),
        !is_digit(s[i]),
        i > 0 || !has_sign(s),
    ensures
        !is_integer_literal(s),
{
    if has_sign(s) {
        assert(s.skip(1)[i - 1] == s[i]);
    }
}

/// The characters of `s`, one by one.
pub fn chars_of(s: &str) -> (r: Vec<char>)
    ensures
        r@ == s@,
{
    broadcast use vstd::string::group_string_axioms;

    let n = s.unicode_len();
    let mut out: Vec<char> = Vec::new();
    let mut it = s.chars();
    loop
        invariant
            n == s@.len(),
            out@ + it.remaining() == s@,
        decreases n - out.len(),
    {
        match it.next() {
            Some(c) => {
                out.push(c);
            },
            None => {
                return out;
            },
        }
    }
}

/// Whether `s` is an integer literal: an optional sign and then one or
/// more ASCII digits, of any number.
pub fn is_integer(s: &str) -> (r: bool)
    ensures
        r == is_integer_literal(s@),
{
    let chars = chars_of(s);
    let n = chars.len();
    let first: usize = if n > 0 && (chars[0] == '+' || chars[0] == '-') {
        1
    } else {
        0
    };
    let ghost digits = if has_sign(s@) { s@.skip(1) } else { s@ };
    assert(digits == s@.skip(first as int));
    if first == n {
        return false;
    }
    let mut i = first;
    while i < n
        invariant
            first <= i <= n,
            n == chars@.len(),
            chars@ == s@,
            digits == s@.skip(first as int),
            digits == if has_sign(s@) {
                s@.skip(1)
            } else {
                s@
            },
            forall|k: int| first <= k < i ==> is_digit(chars@[k]),
        decreases n - i,
    {
        let c = chars[i];
        if !('0' <= c && c <= '9') {
            assert(digits[i - first] == c);
            return false;
        }
        i += 1;
    }
    assert forall|k: int| 0 <= k < digits.len() implies is_digit(#[trigger] digits[k]) by {
        assert(digits[k] == chars@[k + first]);
    }
    true
}

/// Whether `a` stands before `b` in the order of strings: at the first
/// position where the two differ `a` has the character with the lower
/// code point, or `a` ends there and `b` goes on.
pub open spec fn text_lt(a: Seq<char>, b: Seq<char>) -> bool
    decreases a.len(),
{
    if b.len() == 0 {
        false
    } else if a.len() == 0 {
        true
    } else if a[0] != b[0] {
        a[0] < b[0]
    } else {
        text_lt(a.skip(1), b.skip(1))
    }
}

/// `<` on `str`, which orders strings by their bytes and with that, as the
/// standard library says, by the code points of their characters.
#[verifier::external_body]
pub(crate) fn precedes(a: &str, b: &str) -> (r: bool)
    ensures
        r == text_lt(a@, b@),
{
    a < b
}

/// No string stands before itself.
pub proof fn lemma_text_lt_irreflexive(a: Seq<char>)
    ensures
        !text_lt(a, a),
    decreases a.len(),
{
    if a.len() > 0 {
        lemma_text_lt_irreflexive(a.skip(1));
    }
}

/// Of two different strings one stands before the other.
pub proof fn lemma_text_lt_total(a: Seq<char>, b: Seq<char>)
    ensures
        a == b || text_lt(a, b) || text_lt(b, a),
    decreases a.len(),
{
    if a.len() > 0 && b.len() > 0 && a[0] == b[0] {
        lemma_text_lt_total(a.skip(1), b.skip(1));
        if a.skip(1) == b.skip(1) {
            assert(a =~= seq![a[0]] + a.skip(1));
            assert(b =~= seq![b[0]] + b.skip(1));
        }
    } else if a.len() == 0 && b.len() == 0 {
        assert(a =~= b);
    }
}

/// The order of strings is transitive.
pub proof fn lemma_text_lt_transitive(a: Seq<char>, b: Seq<char>, c: Seq<char>)
    requires
        text_lt(a, b),
        text_lt(b, c),
    ensures
        text_lt(a, c),
    decreases a.len(),
{
    if a.len() > 0 && a[0] == b[0] && b[0] == c[0] {
        lemma_text_lt_transitive(a.skip(1), b.skip(1), c.skip(1));
    }
}

/// "Not behind" is transitive too: where `b` does not stand before `a`, nor
/// `c` before `b`, `c` does not stand before `a`.
pub proof fn lemma_text_le_transitive(a: Seq<char>, b: Seq<char>, c: Seq<char>)
    requires
        !text_lt(b, a),
        !text_lt(c, b),
    ensures
        !text_lt(c, a),
{
    lemma_text_lt_total(a, b);
    lemma_text_lt_total(b, c);
    if text_lt(c, a) {
        if a != b {
            lemma_text_lt_transitive(c, a, b);
        }
    }
}

} // verus!
