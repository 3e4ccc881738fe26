//! The spelling alphabet itself: a symbol table, the length of its longest
//! symbol, and the greedy matcher that spells a text with it.

use crate::matching::{
    lemma_longest_symbol_found, lemma_no_symbol_found, spell, spell_from, spelling_at, symbol_at,
    symbol_of, words_of, SpellingView,
};
use crate::table::{
    clone_table, distinct_keys, entries, find_row, has_key, insert_row, is_last_of_its_symbol,
    is_longest_key_len, lemma_last_row_wins, lemma_longest_key_len_unique, lemma_lookup_row,
    lemma_put, lemma_put_longest, lookup, new_table, position_of, put, rows, rows_table, word_of,
    Entry, Text,
};
use crate::text::{
    is_integer, is_integer_literal, lowercase, substring, to_lowercase, to_uppercase, uppercase,
};
use indexmap::IndexMap;
use vstd::prelude::*;

verus! {

/// A spelling alphabet: which word each symbol is spelled as.
///
/// The table is never empty, no symbol occurs twice in it, and the length
/// of the longest symbol is kept beside it. Symbols are matched in
/// lowercase, so an alphabet is to hold its symbols in lowercase:
/// [`SpellingAlphabet::build`] sees to that.
#[derive(Debug)]
pub struct SpellingAlphabet {
    words: IndexMap<String, String>,
    max_ngram_len: usize,
}

/// An alphabet cannot be made of no symbols at all.
#[derive(Debug, Clone, Copy, PartialEq, Eq)]
pub struct EmptyAlphabetError {}

/// One word of a spelling: the word itself, and whether the symbol that it
/// stands for is a number.
#[derive(Debug, Clone, PartialEq, Eq, Hash)]
pub struct Spelling {
    pub spelling: String,
    pub is_number: bool,
}

/// An alphabet as contracts see it: the rows of its table, symbol and
/// word, in the order in which the symbols were first given, and the
/// number of characters of its longest symbol.
pub ghost struct AlphabetView {
    pub table: Seq<Entry>,
    pub max_symbol_len: nat,
}

impl View for SpellingAlphabet {
    type V = AlphabetView;

    closed spec fn view(&self) -> AlphabetView {
        AlphabetView { table: entries(self.words), max_symbol_len: self.max_ngram_len as nat }
    }
}

impl View for Spelling {
    type V = SpellingView;

    open spec fn view(&self) -> SpellingView {
        SpellingView { spelling: self.spelling@, is_number: self.is_number }
    }
}

/// The spellings of a vector, each by its view.
pub open spec fn spellings_view(spellings: Seq<Spelling>) -> Seq<SpellingView> {
    Seq::new(spellings.len(), |i: int| spellings[i]@)
}

/// The strings of a vector, each by its characters.
pub open spec fn strings_view(strings: Seq<String>) -> Seq<Text> {
    Seq::new(strings.len(), |i: int| strings[i]@)
}

/// The pairs of a vector of string pairs, each string by its characters.
pub open spec fn pairs_view(pairs: Seq<(String, String)>) -> Seq<Entry> {
    Seq::new(pairs.len(), |i: int| (pairs[i].0@, pairs[i].1@))
}

/// The pairs with each symbol in lowercase.
pub open spec fn fold_symbols(pairs: Seq<Entry>) -> Seq<Entry> {
    Seq::new(pairs.len(), |i: int| (lowercase(pairs[i].0), pairs[i].1))
}

/// The table that a sequence of `(symbol, word)` pairs builds: each symbol
/// is put in lowercase, in the order of the pairs, so that a symbol keeps
/// the place of its first pair and has the word of its last.
pub open spec fn table_of(pairs: Seq<Entry>) -> Seq<Entry> {
    rows_table(fold_symbols(pairs))
}

/// Of the pairs with the same symbol, case disregarded, the last one wins:
/// its word is the word that the built table has for the symbol.
pub proof fn lemma_last_pair_wins(pairs: Seq<Entry>, i: int)
    requires
        0 <= i < pairs.len(),
        forall|j: int|
            i < j < pairs.len() ==> lowercase((#[trigger] pairs[j]).0) != lowercase(pairs[i].0),
    ensures
        lookup(table_of(pairs), lowercase(pairs[i].0)) == Some(pairs[i].1),
{
    let rows = fold_symbols(pairs);
    assert(is_last_of_its_symbol(rows, i)) by {
        assert forall|j: int| i < j < rows.len() implies (#[trigger] rows[j]).0 != rows[i].0 by {
            assert(rows[j].0 == lowercase(pairs[j].0));
        }
    }
    lemma_last_row_wins(rows, i);
}

/// The spelling of a text depends on the table of the alphabet and on the
/// text, and on nothing else: two alphabets with the same table spell
/// every text alike.
pub proof fn lemma_spelling_is_determined(a: SpellingAlphabet, b: SpellingAlphabet, s: Text)
    requires
        a.wf(),
        b.wf(),
        a.table() == b.table(),
    ensures
        a.spelling_of(s) == b.spelling_of(s),
{
    lemma_longest_key_len_unique(a.table(), a.max_symbol_len(), b.max_symbol_len());
}

/// One line of a listing: the symbol, a space, and the word.
pub open spec fn listing_line(row: Entry) -> Text {
    row.0 + seq![' '] + row.1
}

/// The listing of rows: one line for each row, in the order of the rows,
/// with a line feed between two lines and none at the end.
pub open spec fn listing(rows: Seq<Entry>) -> Text
    decreases rows.len(),
{
    if rows.len() == 0 {
        Seq::empty()
    } else if rows.len() == 1 {
        listing_line(rows[0])
    } else {
        listing(rows.drop_last()) + seq!['\n'] + listing_line(rows.last())
    }
}

/// The rows with each symbol in uppercase.
pub open spec fn upper_symbols(rows: Seq<Entry>) -> Seq<Entry> {
    Seq::new(rows.len(), |i: int| (uppercase(rows[i].0), rows[i].1))
}

/// The listing of a table as it is shown: the symbols in uppercase.
pub open spec fn display_text(t: Seq<Entry>) -> Text {
    listing(upper_symbols(t))
}

/// Writes rows out as a listing: each row on a line of its own, symbol,
/// space, word; the lines joined by line feeds.
pub fn format_rows(rows: &Vec<(String, String)>) -> (r: String)
    ensures
        r@ == listing(pairs_view(rows@)),
{
    let ghost all = pairs_view(rows@);
    let mut out = String::new();
    let mut i: usize = 0;
    while i < rows.len()
        invariant
            i <= rows.len(),
            all == pairs_view(rows@),
            out@ == listing(all.take(i as int)),
        decreases rows.len() - i,
    {
        proof {
            reveal_strlit("\n");
            reveal_strlit(" ");
            assert(all.take(i + 1).drop_last() == all.take(i as int));
            assert(all.take(i + 1).last() == all[i as int]);
        }
        if i > 0 {
            out.append("\n");
        }
        out.append(rows[i].0.as_str());
        out.append(" ");
        out.append(rows[i].1.as_str());
        proof {
            let line = listing_line(all[i as int]);
            assert("\n"@ == seq!['\n']);
            assert(" "@ == seq![' ']);
            if i == 0 {
                assert(out@ == line);
            } else {
                assert(out@ == listing(all.take(i as int)) + seq!['\n'] + line);
            }
        }
        i += 1;
    }
    assert(all.take(i as int) == all);
    out
}

impl Spelling {
    /// The word, as it is to be shown.
    pub fn to_display_string(&self) -> (r: String)
        ensures
            r@ == self.spelling@,
    {
        self.spelling.clone()
    }
}

impl SpellingAlphabet {
    /// The rows of the table, symbol and word, in the order in which the
    /// symbols were first given.
    pub open spec fn table(&self) -> Seq<Entry> {
        self@.table
    }

    /// The number of characters of the longest symbol.
    pub open spec fn max_symbol_len(&self) -> nat {
        self@.max_symbol_len
    }

    /// What holds of every alphabet: the table is not empty, no symbol
    /// occurs twice in it, and `max_symbol_len` is the length of its
    /// longest symbol.
    #[verifier::type_invariant]
    pub open spec fn wf(&self) -> bool {
        &&& self.table().len() > 0
        &&& distinct_keys(self.table())
        &&& is_longest_key_len(self.table(), self.max_symbol_len())
    }

    /// The spelling of `s` with this alphabet, as contracts see it.
    pub open spec fn spelling_of(&self, s: Text) -> Seq<SpellingView> {
        spell(self.table(), self.max_symbol_len(), s)
    }

    /// Builds an alphabet from rows whose symbols are taken as they are.
    ///
    /// Fails exactly when there are no rows. Of two rows with the same
    /// symbol the first gives the place and the last gives the word.
    pub fn from_rows(rows: &Vec<(String, String)>) -> (r: Result<
        SpellingAlphabet,
        EmptyAlphabetError,
    >)
        ensures
            r is Err <==> rows@.len() == 0,
            r matches Ok(a) ==> a.wf() && a.table() == rows_table(pairs_view(rows@)),
    {
        if rows.len() == 0 {
            return Err(EmptyAlphabetError {});
        }
        let ghost all = pairs_view(rows@);
        let mut words = new_table();
        let mut longest: usize = 0;
        let mut i: usize = 0;
        while i < rows.len()
            invariant
                0 <= i <= rows.len(),
                all == pairs_view(rows@),
                entries(words) == rows_table(all.take(i as int)),
                distinct_keys(entries(words)),
                i == 0 <==> entries(words).len() == 0,
                i > 0 ==> is_longest_key_len(entries(words), longest as nat),
            decreases rows.len() - i,
        {
            let key = rows[i].0.clone();
            let len = key.as_str().unicode_len();
            let ghost before = entries(words);
            proof {
                lemma_put(before, key@, all[i as int].1);
                lemma_put_longest(before, key@, all[i as int].1, longest as nat);
                if has_key(before, key@) {
                    lemma_lookup_row(before, position_of(before, key@));
                }
                assert(all.take(i + 1).drop_last() == all.take(i as int));
                assert(all.take(i + 1).last() == all[i as int]);
            }
            insert_row(&mut words, key, rows[i].1.clone());
            assert(entries(words) == put(before, all[i as int].0, all[i as int].1));
            if i == 0 || len > longest {
                longest = len;
            }
            i += 1;
        }
        assert(all.take(i as int) == all);
        Ok(SpellingAlphabet { words, max_ngram_len: longest })
    }

    /// Builds an alphabet from `(symbol, word)` pairs.
    ///
    /// Fails exactly when there are no pairs. Otherwise the table holds
    /// each symbol in lowercase; of two pairs with the same lowercase
    /// symbol the first gives the place and the last gives the word.
    pub fn build(pairs: &Vec<(String, String)>) -> (r: Result<SpellingAlphabet, EmptyAlphabetError>)
        ensures
            r is Err <==> pairs@.len() == 0,
            r matches Ok(a) ==> a.wf() && a.table() == table_of(pairs_view(pairs@)),
    {
        let mut rows: Vec<(String, String)> = Vec::new();
        let mut i: usize = 0;
        while i < pairs.len()
            invariant
                i <= pairs.len(),
                pairs_view(rows@) == fold_symbols(pairs_view(pairs@)).take(i as int),
            decreases pairs.len() - i,
        {
            let ghost before = pairs_view(rows@);
            let symbol = to_lowercase(pairs[i].0.as_str());
            let word = pairs[i].1.clone();
            rows.push((symbol, word));
            assert(pairs_view(rows@) == before.push((symbol@, word@)));
            i += 1;
        }
        assert(fold_symbols(pairs_view(pairs@)).take(i as int) == fold_symbols(
            pairs_view(pairs@),
        ));
        SpellingAlphabet::from_rows(&rows)
    }

    /// The candidates at the character position `start` of `s`: for each
    /// length from one up to the longest symbol, as far as `s` reaches,
    /// the text of that length at `start`, in lowercase.
    fn candidates_at(&self, s: &str, n: usize, start: usize) -> (r: Vec<String>)
        requires
            n == s@.len(),
            start < n,
        ensures
            r@.len() == if self.max_symbol_len() <= n - start {
                self.max_symbol_len()
            } else {
                (n - start) as nat
            },
            forall|k: int|
                0 <= k < r@.len() ==> (#[trigger] r@[k])@ == symbol_of(s@, start as int, k + 1),
    {
        let reach = if self.max_ngram_len <= n - start {
            self.max_ngram_len
        } else {
            n - start
        };
        let mut candidates: Vec<String> = Vec::new();
        let mut len: usize = 0;
        while len < reach
            invariant
                n == s@.len(),
                start < n,
                len <= reach <= n - start,
                candidates@.len() == len,
                forall|k: int|
                    0 <= k < len ==> (#[trigger] candidates@[k])@ == symbol_of(
                        s@,
                        start as int,
                        k + 1,
                    ),
            decreases reach - len,
        {
            len += 1;
            let raw = substring(s, start, start + len);
            assert(raw@ == s@.subrange(start as int, start + len));
            candidates.push(to_lowercase(raw));
        }
        candidates
    }

    /// Picks the longest candidate that is a symbol of the alphabet.
    ///
    /// Candidate `k` is the text of `k + 1` characters at some position,
    /// in lowercase. The result is the length of the longest candidate
    /// that is a symbol, with its spelling: the word of the symbol, marked
    /// as a number where the symbol is an integer literal. There is no
    /// result exactly when no candidate is a symbol.
    pub fn longest_match(&self, candidates: &Vec<String>) -> (r: Option<(usize, Spelling)>)
        ensures
            match r {
                Some((len, found)) => {
                    &&& 1 <= len <= candidates@.len()
                    &&& has_key(self.table(), candidates@[len - 1]@)
                    &&& forall|k: int|
                        len <= k < candidates@.len() ==> !has_key(
                            self.table(),
                            (#[trigger] candidates@[k])@,
                        )
                    &&& found@ == SpellingView {
                        spelling: word_of(self.table(), candidates@[len - 1]@),
                        is_number: is_integer_literal(candidates@[len - 1]@),
                    }
                },
                None => forall|k: int|
                    0 <= k < candidates@.len() ==> !has_key(
                        self.table(),
                        (#[trigger] candidates@[k])@,
                    ),
            },
    {
        let mut len = candidates.len();
        while len > 0
            invariant
                len <= candidates@.len(),
                forall|k: int|
                    len <= k < candidates@.len() ==> !has_key(
                        self.table(),
                        (#[trigger] candidates@[k])@,
                    ),
            decreases len,
        {
            let symbol = candidates[len - 1].as_str();
            match find_row(&self.words, symbol) {
                Some(word) => {
                    proof {
                        use_type_invariant(self);
                        let i = choose|i: int|
                            0 <= i < self.table().len() && #[trigger] self.table()[i] == (
                                symbol@,
                                word@,
                            );
                        lemma_lookup_row(self.table(), i);
                    }
                    let found = Spelling { spelling: word.clone(), is_number: is_integer(symbol) };
                    return Some((len, found));
                },
                None => {},
            }
            len -= 1;
        }
        None
    }

    /// Spells `s`: matches it from left to right against the symbols of the
    /// alphabet, by character position and without regard to case, always
    /// taking the longest symbol that begins at the current position, and
    /// gives the word of each symbol matched, marked as a number where the
    /// symbol is an integer literal. A character at which no symbol begins
    /// is passed over without a word.
    pub fn str_to_spellings(&self, s: &str) -> (r: Vec<Spelling>)
        ensures
            spellings_view(r@) == self.spelling_of(s@),
    {
        let n = s.unicode_len();
        let mut spellings: Vec<Spelling> = Vec::new();
        let mut start: usize = 0;
        while start < n
            invariant
                n == s@.len(),
                start <= n,
                spellings_view(spellings@) + spell_from(
                    self.table(),
                    self.max_symbol_len(),
                    s@,
                    start as int,
                ) == self.spelling_of(s@),
            decreases n - start,
        {
            let ghost before = spellings_view(spellings@);
            let candidates = self.candidates_at(s, n, start);
            match self.longest_match(&candidates) {
                Some((len, found)) => {
                    proof {
                        assert forall|k: int| len < k <= self.max_symbol_len() implies !symbol_at(
                            self.table(),
                            s@,
                            start as int,
                            k,
                        ) by {
                            if start + k <= n {
                                assert(!has_key(self.table(), candidates@[k - 1]@));
                            }
                        }
                        lemma_longest_symbol_found(
                            self.table(),
                            self.max_symbol_len(),
                            s@,
                            start as int,
                            len as int,
                        );
                        assert(found@ == spelling_at(self.table(), s@, start as int, len as int));
                    }
                    spellings.push(found);
                    assert(spellings_view(spellings@) == before.push(found@));
                    start += len;
                },
                None => {
                    proof {
                        assert forall|k: int| 1 <= k <= self.max_symbol_len() implies !symbol_at(
                            self.table(),
                            s@,
                            start as int,
                            k,
                        ) by {
                            if start + k <= n {
                                assert(!has_key(self.table(), candidates@[k - 1]@));
                            }
                        }
                        lemma_no_symbol_found(
                            self.table(),
                            self.max_symbol_len(),
                            s@,
                            start as int,
                        );
                    }
                    start += 1;
                },
            }
        }
        assert(spellings_view(spellings@) + Seq::<SpellingView>::empty() == spellings_view(
            spellings@,
        ));
        spellings
    }

    /// Spells `s` as [`SpellingAlphabet::str_to_spellings`] does, and gives
    /// the words alone.
    pub fn string_to_words(&self, s: &str) -> (r: Vec<String>)
        ensures
            strings_view(r@) == words_of(self.spelling_of(s@)),
    {
        let spellings = self.str_to_spellings(s);
        let mut words: Vec<String> = Vec::new();
        let mut i: usize = 0;
        while i < spellings.len()
            invariant
                i <= spellings.len(),
                strings_view(words@) == words_of(spellings_view(spellings@)).take(i as int),
            decreases spellings.len() - i,
        {
            let ghost before = strings_view(words@);
            let word = spellings[i].spelling.clone();
            assert(word@ == words_of(spellings_view(spellings@))[i as int]);
            words.push(word);
            assert(strings_view(words@) == before.push(word@));
            i += 1;
        }
        assert(words_of(spellings_view(spellings@)).take(i as int) == words_of(
            spellings_view(spellings@),
        ));
        words
    }

    /// The listing of the alphabet: one line for each symbol, in the order
    /// in which the symbols were first given, each line the symbol in
    /// uppercase, a space, and its word. The lines are joined by line
    /// feeds.
    pub fn to_display_string(&self) -> (r: String)
        ensures
            r@ == display_text(self.table()),
    {
        let all = rows(&self.words);
        let mut shown: Vec<(String, String)> = Vec::new();
        let mut i: usize = 0;
        while i < all.len()
            invariant
                i <= all.len(),
                all@.len() == self.table().len(),
                forall|k: int|
                    0 <= k < all@.len() ==> (#[trigger] all@[k]).0@ == self.table()[k].0
                        && all@[k].1@ == self.table()[k].1,
                pairs_view(shown@) == upper_symbols(self.table()).take(i as int),
            decreases all.len() - i,
        {
            let ghost before = pairs_view(shown@);
            let symbol = to_uppercase(all[i].0.as_str());
            let word = all[i].1.clone();
            shown.push((symbol, word));
            assert(pairs_view(shown@) == before.push((symbol@, word@)));
            i += 1;
        }
        assert(upper_symbols(self.table()).take(i as int) == upper_symbols(self.table()));
        format_rows(&shown)
    }
}

impl Clone for SpellingAlphabet {
    /// The copy has the same table and the same longest symbol length.
    fn clone(&self) -> (r: SpellingAlphabet)
        ensures
            r@ == self@,
    {
        proof {
            use_type_invariant(self);
        }
        SpellingAlphabet { words: clone_table(&self.words), max_ngram_len: self.max_ngram_len }
    }
}

} // verus!
