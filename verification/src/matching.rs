//! What it means to spell a text with a symbol table: greedy matching of
//! the longest symbol, left to right, by character position.
//!
//! Everything here is stated over plain values: the table as a sequence of
//! rows, the text as a sequence of characters.

use crate::table::{distinct_keys, has_key, lemma_lookup_row, position_of, word_of, Entry, Text};
use crate::text::{
    all_digits, has_sign, is_digit, is_integer_literal, lemma_digits_are_literal,
    lemma_other_character_is_no_literal, lowercase,
};
use vstd::prelude::*;

verus! {

/// One word of a spelling as contracts see it: the word, and whether the
/// symbol that it stands for is a number.
pub ghost struct SpellingView {
    pub spelling: Seq<char>,
    pub is_number: bool,
}

/// The symbol that the `len` characters of `s` from `start` are read as:
/// their lowercase form.
pub open spec fn symbol_of(s: Text, start: int, len: int) -> Text {
    lowercase(s.subrange(start, start + len))
}

/// Whether the `len` characters of `s` from position `start` are, in
/// lowercase, a symbol of `t`.
pub open spec fn symbol_at(t: Seq<Entry>, s: Text, start: int, len: int) -> bool {
    &&& 0 <= start
    &&& 1 <= len
    &&& start + len <= s.len()
    &&& has_key(t, symbol_of(s, start, len))
}

/// The length of the longest symbol of `t`, of at most `limit` characters,
/// that `s` holds at position `start`; 0 where it holds none.
pub open spec fn longest_symbol_at(t: Seq<Entry>, limit: nat, s: Text, start: int) -> nat
    decreases limit,
{
    if limit == 0 {
        0
    } else if symbol_at(t, s, start, limit as int) {
        limit
    } else {
        longest_symbol_at(t, (limit - 1) as nat, s, start)
    }
}

/// Matching is greedy: the length that [`longest_symbol_at`] gives is that
/// of a symbol which `s` holds at `start`, and `s` holds no longer symbol
/// of at most `limit` characters there. Where it gives 0, `s` holds no
/// symbol of at most `limit` characters at `start`.
pub proof fn lemma_longest_symbol_is_greedy(t: Seq<Entry>, limit: nat, s: Text, start: int)
    ensures
        longest_symbol_at(t, limit, s, start) <= limit,
        longest_symbol_at(t, limit, s, start) > 0 ==> symbol_at(
            t,
            s,
            start,
            longest_symbol_at(t, limit, s, start) as int,
        ),
        forall|len: int|
            longest_symbol_at(t, limit, s, start) < len <= limit ==> !symbol_at(t, s, start, len),
    decreases limit,
{
    if limit > 0 && !symbol_at(t, s, start, limit as int) {
        lemma_longest_symbol_is_greedy(t, (limit - 1) as nat, s, start);
    }
}

/// The longest symbol at a position is known by what the greedy rule asks
/// of it: `s` holds a symbol of `len` characters at `start`, and no longer
/// one of at most `limit` characters.
pub proof fn lemma_longest_symbol_found(t: Seq<Entry>, limit: nat, s: Text, start: int, len: int)
    requires
        1 <= len <= limit,
        symbol_at(t, s, start, len),
        forall|k: int| len < k <= limit ==> !symbol_at(t, s, start, k),
    ensures
        longest_symbol_at(t, limit, s, start) == len,
    decreases limit,
{
    if limit > len {
        lemma_longest_symbol_found(t, (limit - 1) as nat, s, start, len);
    }
}

/// Where `s` holds no symbol of at most `limit` characters at `start`, the
/// longest symbol there has length 0.
pub proof fn lemma_no_symbol_found(t: Seq<Entry>, limit: nat, s: Text, start: int)
    requires
        forall|k: int| 1 <= k <= limit ==> !symbol_at(t, s, start, k),
    ensures
        longest_symbol_at(t, limit, s, start) == 0,
    decreases limit,
{
    if limit > 0 {
        lemma_no_symbol_found(t, (limit - 1) as nat, s, start);
    }
}

/// The spelling of the symbol that the `len` characters of `s` from
/// `start` are: the word that `t` has for the symbol, and whether the
/// symbol is an integer literal.
pub open spec fn spelling_at(t: Seq<Entry>, s: Text, start: int, len: int) -> SpellingView {
    let symbol = symbol_of(s, start, len);
    SpellingView { spelling: word_of(t, symbol), is_number: is_integer_literal(symbol) }
}

/// The spelling of `s` from position `start` on. Where a symbol begins at
/// `start`, the longest such symbol is spelled and matching goes on behind
/// it; where none does, the character at `start` is passed over.
pub open spec fn spell_from(t: Seq<Entry>, limit: nat, s: Text, start: int) -> Seq<SpellingView>
    decreases s.len() - start,
    via spell_from_terminates
{
    if start < 0 || start >= s.len() {
        Seq::empty()
    } else {
        let len = longest_symbol_at(t, limit, s, start);
        if len == 0 {
            spell_from(t, limit, s, start + 1)
        } else {
            seq![spelling_at(t, s, start, len as int)] + spell_from(t, limit, s, start + len)
        }
    }
}

#[via_fn]
proof fn spell_from_terminates(t: Seq<Entry>, limit: nat, s: Text, start: int) {
    lemma_longest_symbol_is_greedy(t, limit, s, start);
}

/// The spelling of the whole of `s` with the table `t`, whose symbols have
/// at most `limit` characters.
pub open spec fn spell(t: Seq<Entry>, limit: nat, s: Text) -> Seq<SpellingView> {
    spell_from(t, limit, s, 0)
}

/// The words of a spelling, without the number marks.
pub open spec fn words_of(spelling: Seq<SpellingView>) -> Seq<Text> {
    Seq::new(spelling.len(), |i: int| spelling[i].spelling)
}

/// The stretches of `s` that are spelled from position `start` on: for
/// each symbol matched, in order, the position where it begins and the
/// number of its characters.
pub open spec fn spans_from(t: Seq<Entry>, limit: nat, s: Text, start: int) -> Seq<(int, int)>
    decreases s.len() - start,
    via spans_from_terminates
{
    if start < 0 || start >= s.len() {
        Seq::empty()
    } else {
        let len = longest_symbol_at(t, limit, s, start);
        if len == 0 {
            spans_from(t, limit, s, start + 1)
        } else {
            seq![(start, len as int)] + spans_from(t, limit, s, start + len)
        }
    }
}

#[via_fn]
proof fn spans_from_terminates(t: Seq<Entry>, limit: nat, s: Text, start: int) {
    lemma_longest_symbol_is_greedy(t, limit, s, start);
}

/// Whether position `p` lies inside one of the stretches `spans`.
pub open spec fn covered(spans: Seq<(int, int)>, p: int) -> bool {
    exists|i: int| 0 <= i < spans.len() && (#[trigger] spans[i]).0 <= p < spans[i].0 + spans[i].1
}

/// Each word of a spelling stands for exactly one matched stretch of the
/// text: there are as many words as stretches, and the word at each place
/// is the spelling of the stretch at that place.
pub proof fn lemma_spelling_follows_spans(t: Seq<Entry>, limit: nat, s: Text, start: int)
    ensures
        spell_from(t, limit, s, start).len() == spans_from(t, limit, s, start).len(),
        forall|i: int|
            0 <= i < spans_from(t, limit, s, start).len() ==> #[trigger] spell_from(
                t,
                limit,
                s,
                start,
            )[i] == spelling_at(
                t,
                s,
                spans_from(t, limit, s, start)[i].0,
                spans_from(t, limit, s, start)[i].1,
            ),
    decreases s.len() - start,
{
    if 0 <= start < s.len() {
        lemma_longest_symbol_is_greedy(t, limit, s, start);
        let len = longest_symbol_at(t, limit, s, start);
        if len == 0 {
            lemma_spelling_follows_spans(t, limit, s, start + 1);
        } else {
            lemma_spelling_follows_spans(t, limit, s, start + len);
            let rest = spell_from(t, limit, s, start + len);
            let rest_spans = spans_from(t, limit, s, start + len);
            assert forall|i: int| 0 <= i < spans_from(t, limit, s, start).len() implies #[trigger] spell_from(
                t,
                limit,
                s,
                start,
            )[i] == spelling_at(
                t,
                s,
                spans_from(t, limit, s, start)[i].0,
                spans_from(t, limit, s, start)[i].1,
            ) by {
                if i > 0 {
                    assert(spell_from(t, limit, s, start)[i] == rest[i - 1]);
                    assert(spans_from(t, limit, s, start)[i] == rest_spans[i - 1]);
                }
            }
        }
    }
}

/// The matched stretches account for the text without overlap. Each lies
/// inside the text, behind `start`, and is the longest symbol that begins
/// at its position; each begins at or behind the end of the one before
/// it, so that no character belongs to two of them; and at a position
/// from `start` on that lies in none of them no symbol begins, which is
/// why it was passed over.
pub proof fn lemma_spans_partition(t: Seq<Entry>, limit: nat, s: Text, start: int)
    requires
        0 <= start,
    ensures
        forall|i: int|
            0 <= i < spans_from(t, limit, s, start).len() ==> {
                let span = #[trigger] spans_from(t, limit, s, start)[i];
                &&& start <= span.0
                &&& 1 <= span.1
                &&& span.0 + span.1 <= s.len()
                &&& span.1 == longest_symbol_at(t, limit, s, span.0)
            },
        forall|i: int, j: int|
            0 <= i < j < spans_from(t, limit, s, start).len() ==> (#[trigger] spans_from(
                t,
                limit,
                s,
                start,
            )[i]).0 + spans_from(t, limit, s, start)[i].1 <= (#[trigger] spans_from(
                t,
                limit,
                s,
                start,
            )[j]).0,
        forall|p: int|
            start <= p < s.len() && !covered(spans_from(t, limit, s, start), p)
                ==> #[trigger] longest_symbol_at(t, limit, s, p) == 0,
    decreases s.len() - start,
{
    let spans = spans_from(t, limit, s, start);
    if start < s.len() {
        lemma_longest_symbol_is_greedy(t, limit, s, start);
        let len = longest_symbol_at(t, limit, s, start);
        let next = if len == 0 { start + 1 } else { start + len };
        let rest = spans_from(t, limit, s, next);
        lemma_spans_partition(t, limit, s, next);
        if len == 0 {
            assert(spans == rest);
            assert forall|p: int| start <= p < s.len() && !covered(spans, p) implies #[trigger] longest_symbol_at(
                t,
                limit,
                s,
                p,
            ) == 0 by {
                if p > start {
                    assert(!covered(rest, p));
                }
            }
        } else {
            assert(spans == seq![(start, len as int)] + rest);
            assert(spans[0] == (start, len as int));
            assert forall|i: int| 0 < i < spans.len() implies #[trigger] spans[i] == rest[i - 1] by {}
            assert forall|i: int| 0 <= i < spans.len() implies {
                let span = #[trigger] spans[i];
                &&& start <= span.0
                &&& 1 <= span.1
                &&& span.0 + span.1 <= s.len()
                &&& span.1 == longest_symbol_at(t, limit, s, span.0)
            } by {
                if i > 0 {
                    assert(spans[i] == rest[i - 1]);
                }
            }
            assert forall|i: int, j: int| 0 <= i < j < spans.len() implies (#[trigger] spans[i]).0
                + spans[i].1 <= (#[trigger] spans[j]).0 by {
                assert(spans[j] == rest[j - 1]);
                if i > 0 {
                    assert(spans[i] == rest[i - 1]);
                }
            }
            assert forall|p: int| start <= p < s.len() && !covered(spans, p) implies #[trigger] longest_symbol_at(
                t,
                limit,
                s,
                p,
            ) == 0 by {
                if p < next {
                    assert(spans[0].0 <= p < spans[0].0 + spans[0].1);
                    assert(covered(spans, p));
                } else {
                    if covered(rest, p) {
                        let i = choose|i: int|
                            0 <= i < rest.len() && (#[trigger] rest[i]).0 <= p < rest[i].0
                                + rest[i].1;
                        assert(spans[i + 1] == rest[i]);
                        assert(covered(spans, p));
                    }
                }
            }
        }
    }
}

/// Two texts read alike without regard to case: they have the same number
/// of characters, and every stretch of one has the same lowercase form as
/// the same stretch of the other.
pub open spec fn same_when_folded(a: Text, b: Text) -> bool {
    &&& a.len() == b.len()
    &&& forall|i: int, j: int|
        0 <= i < j <= a.len() ==> #[trigger] lowercase(a.subrange(i, j)) == lowercase(
            b.subrange(i, j),
        )
}

/// Spelling does not regard case: two texts that read alike without
/// regard to case have the same spelling, word for word and mark for
/// mark.
pub proof fn lemma_spelling_ignores_case(t: Seq<Entry>, limit: nat, a: Text, b: Text)
    requires
        same_when_folded(a, b),
    ensures
        spell(t, limit, a) == spell(t, limit, b),
        words_of(spell(t, limit, a)) == words_of(spell(t, limit, b)),
{
    lemma_spelling_ignores_case_from(t, limit, a, b, 0);
}

/// [`lemma_spelling_ignores_case`] for the spelling from `start` on.
pub proof fn lemma_spelling_ignores_case_from(
    t: Seq<Entry>,
    limit: nat,
    a: Text,
    b: Text,
    start: int,
)
    requires
        same_when_folded(a, b),
    ensures
        spans_from(t, limit, a, start) == spans_from(t, limit, b, start),
        spell_from(t, limit, a, start) == spell_from(t, limit, b, start),
    decreases a.len() - start,
{
    if 0 <= start < a.len() {
        lemma_same_longest_symbol(t, limit, a, b, start);
        lemma_longest_symbol_is_greedy(t, limit, a, start);
        let len = longest_symbol_at(t, limit, a, start);
        if len == 0 {
            lemma_spelling_ignores_case_from(t, limit, a, b, start + 1);
        } else {
            lemma_spelling_ignores_case_from(t, limit, a, b, start + len);
            assert(lowercase(a.subrange(start, start + len)) == lowercase(
                b.subrange(start, start + len),
            ));
        }
    }
}

/// Two texts that read alike without regard to case hold the same longest
/// symbol at every position.
pub proof fn lemma_same_longest_symbol(t: Seq<Entry>, limit: nat, a: Text, b: Text, start: int)
    requires
        same_when_folded(a, b),
    ensures
        longest_symbol_at(t, limit, a, start) == longest_symbol_at(t, limit, b, start),
    decreases limit,
{
    if limit > 0 {
        if 0 <= start && start + limit <= a.len() {
            assert(lowercase(a.subrange(start, start + limit)) == lowercase(
                b.subrange(start, start + limit),
            ));
        }
        lemma_same_longest_symbol(t, (limit - 1) as nat, a, b, start);
    }
}

/// Whether `found` is the spelling of a row of `t` with the symbol
/// `symbol`: its word is the word of the row, and it is marked as a
/// number exactly when the symbol of the row is an integer literal.
pub open spec fn spells_row(t: Seq<Entry>, symbol: Text, found: SpellingView) -> bool {
    exists|i: int|
        0 <= i < t.len() && (#[trigger] t[i]).0 == symbol && found == (SpellingView {
            spelling: t[i].1,
            is_number: is_integer_literal(t[i].0),
        })
}

/// What is spelled is a row of the table: where `s` holds a symbol at
/// `start`, the table has a row with that symbol, the word spelled is the
/// word of that row, and the spelling is marked as a number exactly when
/// the symbol of the row is an integer literal.
pub proof fn lemma_spelling_is_of_a_row(t: Seq<Entry>, s: Text, start: int, len: int)
    requires
        distinct_keys(t),
        symbol_at(t, s, start, len),
    ensures
        spells_row(t, symbol_of(s, start, len), spelling_at(t, s, start, len)),
{
    let i = position_of(t, symbol_of(s, start, len));
    lemma_lookup_row(t, i);
}

/// Every word of a spelling is that of a row of the table: the row whose
/// symbol is the lowercase form of the stretch of the text that the word
/// stands for. It is marked as a number exactly when the symbol of that
/// row is an integer literal.
pub proof fn lemma_every_spelling_is_of_a_row(t: Seq<Entry>, limit: nat, s: Text)
    requires
        distinct_keys(t),
    ensures
        spell(t, limit, s).len() == spans_from(t, limit, s, 0).len(),
        forall|i: int|
            0 <= i < spell(t, limit, s).len() ==> spells_row(
                t,
                symbol_of(s, spans_from(t, limit, s, 0)[i].0, spans_from(t, limit, s, 0)[i].1),
                #[trigger] spell(t, limit, s)[i],
            ),
{
    lemma_spelling_follows_spans(t, limit, s, 0);
    lemma_spans_partition(t, limit, s, 0);
    let spans = spans_from(t, limit, s, 0);
    assert forall|i: int| 0 <= i < spell(t, limit, s).len() implies spells_row(
        t,
        symbol_of(s, spans[i].0, spans[i].1),
        #[trigger] spell(t, limit, s)[i],
    ) by {
        let span = spans[i];
        lemma_longest_symbol_is_greedy(t, limit, s, span.0);
        lemma_spelling_is_of_a_row(t, s, span.0, span.1);
        assert(spell_from(t, limit, s, 0)[i] == spelling_at(t, s, span.0, span.1));
    }
}

/// How the spelling of a row is marked: as a number where the symbol of
/// the row is made of one or more ASCII digits, however many; not as a
/// number where one character of the symbol is neither an ASCII digit
/// nor a sign in front, as in every symbol that holds a letter.
pub proof fn lemma_row_number_mark(t: Seq<Entry>, symbol: Text, found: SpellingView)
    requires
        spells_row(t, symbol, found),
    ensures
        symbol.len() >= 1 && all_digits(symbol) ==> found.is_number,
        (exists|i: int|
            0 <= i < symbol.len() && !is_digit(#[trigger] symbol[i]) && (i > 0 || !has_sign(
                symbol,
            ))) ==> !found.is_number,
{
    if symbol.len() >= 1 && all_digits(symbol) {
        lemma_digits_are_literal(symbol);
    }
    if exists|i: int|
        0 <= i < symbol.len() && !is_digit(#[trigger] symbol[i]) && (i > 0 || !has_sign(symbol)) {
        let i = choose|i: int|
            0 <= i < symbol.len() && !is_digit(#[trigger] symbol[i]) && (i > 0 || !has_sign(
                symbol,
            ));
        lemma_other_character_is_no_literal(symbol, i);
    }
}

/// A text that holds no symbol anywhere has no spelling.
pub proof fn lemma_no_symbol_no_word(t: Seq<Entry>, limit: nat, s: Text, start: int)
    requires
        forall|at: int, len: int| !symbol_at(t, s, at, len),
    ensures
        spell_from(t, limit, s, start) == Seq::<SpellingView>::empty(),
    decreases s.len() - start,
{
    if 0 <= start < s.len() {
        lemma_longest_symbol_is_greedy(t, limit, s, start);
        lemma_no_symbol_no_word(t, limit, s, start + 1);
    }
}

/// How a spelling is marked, by the symbol matched: as a number where the
/// symbol is made of one or more ASCII digits, however many; not as a
/// number where one of its characters is neither an ASCII digit nor a
/// sign in front, as in every symbol that holds a letter.
pub proof fn lemma_number_mark(t: Seq<Entry>, s: Text, start: int, len: int)
    ensures
        symbol_of(s, start, len).len() >= 1 && all_digits(symbol_of(s, start, len)) ==> spelling_at(
            t,
            s,
            start,
            len,
        ).is_number,
        (exists|i: int|
            0 <= i < symbol_of(s, start, len).len() && !is_digit(
                #[trigger] symbol_of(s, start, len)[i],
            ) && (i > 0 || !has_sign(symbol_of(s, start, len)))) ==> !spelling_at(
            t,
            s,
            start,
            len,
        ).is_number,
{
    let symbol = symbol_of(s, start, len);
    if symbol.len() >= 1 && all_digits(symbol) {
        lemma_digits_are_literal(symbol);
    }
    if exists|i: int|
        0 <= i < symbol.len() && !is_digit(#[trigger] symbol[i]) && (i > 0 || !has_sign(symbol)) {
        let i = choose|i: int|
            0 <= i < symbol.len() && !is_digit(#[trigger] symbol[i]) && (i > 0 || !has_sign(
                symbol,
            ));
        lemma_other_character_is_no_literal(symbol, i);
    }
}

/// The mark can be read off the text itself where lowercasing leaves the
/// matched characters as they are, as it does with digits and signs: the
/// spelling is then marked as a number exactly when those characters are
/// an integer literal.
pub proof fn lemma_number_mark_of_folded_text(t: Seq<Entry>, s: Text, start: int, len: int)
    requires
        symbol_of(s, start, len) == s.subrange(start, start + len),
    ensures
        spelling_at(t, s, start, len).is_number == is_integer_literal(
            s.subrange(start, start + len),
        ),
{
}

} // verus!
