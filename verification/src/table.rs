//! The symbol table of an alphabet: an insertion-ordered map from symbol to
//! word, kept in an [`indexmap::IndexMap`].
//!
//! Contracts see the map as the sequence of its rows, each a pair of
//! character sequences, in the order in which the map walks them.

use indexmap::IndexMap;
use vstd::prelude::*;

verus! {

/// A string as contracts see it: its characters in order.
pub type Text = Seq<char>;

/// One row of a symbol table: the symbol and the word it is spelled as.
pub type Entry = (Seq<char>, Seq<char>);

/// `indexmap::IndexMap`, made known so that it can stand in fields and
/// signatures. Nothing is claimed of what a map holds but through
/// [`entries`].
#[verifier::external_type_specification]
#[verifier::external_body]
#[verifier::reject_recursive_types(K)]
#[verifier::reject_recursive_types(V)]
#[verifier::reject_recursive_types(S)]
pub struct ExIndexMap<K, V, S>(indexmap::IndexMap<K, V, S>);

/// The rows that an `IndexMap` of strings holds, in the order in which the
/// map walks them: the order in which their keys were first inserted.
pub uninterp spec fn entries(m: IndexMap<String, String>) -> Seq<(Seq<char>, Seq<char>)>;

/// Whether some row of `t` has the symbol `key`.
pub open spec fn has_key(t: Seq<Entry>, key: Text) -> bool {
    exists|i: int| 0 <= i < t.len() && (#[trigger] t[i]).0 == key
}

/// The position of a row of `t` with the symbol `key`, where there is one.
pub open spec fn position_of(t: Seq<Entry>, key: Text) -> int {
    choose|i: int| 0 <= i < t.len() && (#[trigger] t[i]).0 == key
}

/// The word of a row of `t` with the symbol `key`, where there is one.
pub open spec fn word_of(t: Seq<Entry>, key: Text) -> Text {
    t[position_of(t, key)].1
}

/// The word that `t` gives for the symbol `key`, if it has that symbol.
pub open spec fn lookup(t: Seq<Entry>, key: Text) -> Option<Text> {
    if has_key(t, key) {
        Some(word_of(t, key))
    } else {
        None
    }
}

/// No two rows of `t` have the same symbol.
pub open spec fn distinct_keys(t: Seq<Entry>) -> bool {
    forall|i: int, j: int| 0 <= i < j < t.len() ==> (#[trigger] t[i]).0 != (#[trigger] t[j]).0
}

/// The table `t` after the row `(key, word)` is put into it: a row with
/// that symbol keeps its place and takes the new word, and a new symbol
/// goes to the end.
pub open spec fn put(t: Seq<Entry>, key: Text, word: Text) -> Seq<Entry> {
    if has_key(t, key) {
        t.update(position_of(t, key), (key, word))
    } else {
        t.push((key, word))
    }
}

/// `len` is the number of characters of the longest symbol of `t`: some
/// symbol has that many, and none has more.
pub open spec fn is_longest_key_len(t: Seq<Entry>, len: nat) -> bool {
    &&& forall|i: int| 0 <= i < t.len() ==> (#[trigger] t[i]).0.len() <= len
    &&& exists|i: int| 0 <= i < t.len() && (#[trigger] t[i]).0.len() == len
}

/// `IndexMap::new`: the new map holds no rows.
#[verifier::external_body]
pub(crate) fn new_table() -> (m: IndexMap<String, String>)
    ensures
        entries(m) == Seq::<Entry>::empty(),
{
    IndexMap::new()
}

/// `IndexMap::insert`, its result dropped. Where the map has a row with an
/// equal key, that row keeps its place and takes the new word; where it has
/// none, the new row becomes the last one. No other row changes.
#[verifier::external_body]
pub(crate) fn insert_row(m: &mut IndexMap<String, String>, key: String, word: String)
    ensures
        has_key(entries(*old(m)), key@) ==> exists|i: int|
            0 <= i < entries(*old(m)).len() && (#[trigger] entries(*old(m))[i]).0 == key@
                && entries(*final(m)) == entries(*old(m)).update(i, (key@, word@)),
        !has_key(entries(*old(m)), key@) ==> entries(*final(m)) == entries(*old(m)).push(
            (key@, word@),
        ),
{
    m.insert(key, word);
}

/// `IndexMap::get` with a `str` key. A word comes back exactly when some
/// row has that key, and it is the word of such a row.
#[verifier::external_body]
pub(crate) fn find_row<'a>(m: &'a IndexMap<String, String>, key: &str) -> (r: Option<&'a String>)
    ensures
        match r {
            Some(word) => exists|i: int|
                0 <= i < entries(*m).len() && #[trigger] entries(*m)[i] == (key@, word@),
            None => !has_key(entries(*m), key@),
        },
{
    m.get(key)
}

/// `IndexMap::iter`, each row copied out: the rows in the map's order.
#[verifier::external_body]
pub(crate) fn rows(m: &IndexMap<String, String>) -> (r: Vec<(String, String)>)
    ensures
        r@.len() == entries(*m).len(),
        forall|i: int|
            0 <= i < r@.len() ==> (#[trigger] r@[i]).0@ == entries(*m)[i].0 && r@[i].1@
                == entries(*m)[i].1,
{
    m.iter().map(|(k, v)| (k.clone(), v.clone())).collect()
}

/// `IndexMap::clone`: the copy holds the same rows in the same order.
#[verifier::external_body]
pub(crate) fn clone_table(m: &IndexMap<String, String>) -> (r: IndexMap<String, String>)
    ensures
        entries(r) == entries(*m),
{
    m.clone()
}

/// In a table without repeated symbols, a row's word is what `lookup` finds
/// for its symbol.
pub proof fn lemma_lookup_row(t: Seq<Entry>, i: int)
    requires
        distinct_keys(t),
        0 <= i < t.len(),
    ensures
        has_key(t, t[i].0),
        position_of(t, t[i].0) == i,
        lookup(t, t[i].0) == Some(t[i].1),
{
    let p = position_of(t, t[i].0);
    assert(0 <= p < t.len() && t[p].0 == t[i].0);
    if p < i {
        assert(t[p].0 != t[i].0);
    } else if i < p {
        assert(t[i].0 != t[p].0);
    }
}

/// Putting a row into a table without repeated symbols leaves it without
/// repeated symbols, gives the symbol its new word, and changes the word of
/// no other symbol.
pub proof fn lemma_put(t: Seq<Entry>, key: Text, word: Text)
    requires
        distinct_keys(t),
    ensures
        distinct_keys(put(t, key, word)),
        lookup(put(t, key, word), key) == Some(word),
        forall|other: Text| other != key ==> lookup(put(t, key, word), other) == lookup(t, other),
        forall|other: Text| has_key(put(t, key, word), other) <==> other == key || has_key(t, other),
        put(t, key, word).len() == if has_key(t, key) { t.len() } else { t.len() + 1 },
{
    let u = put(t, key, word);
    let at = if has_key(t, key) { position_of(t, key) } else { t.len() as int };
    assert(0 <= at < u.len() && u[at] == (key, word));
    assert forall|i: int| 0 <= i < u.len() && i != at implies #[trigger] u[i] == t[i] && t[i].0 != key by {
        if has_key(t, key) {
            lemma_lookup_row(t, at);
            if i < at {
                assert(t[i].0 != t[at].0);
            } else {
                assert(t[at].0 != t[i].0);
            }
        } else {
            assert(t[i].0 != key);
        }
    }
    assert(distinct_keys(u)) by {
        assert forall|i: int, j: int| 0 <= i < j < u.len() implies (#[trigger] u[i]).0 != (
        #[trigger] u[j]).0 by {
            if i != at && j != at {
                assert(t[i].0 != t[j].0);
            }
        }
    }
    lemma_lookup_row(u, at);
    assert forall|other: Text| has_key(u, other) <==> other == key || has_key(t, other) by {
        if has_key(u, other) {
            let p = position_of(u, other);
            if p != at {
                assert(t[p].0 == other);
            }
        }
        if has_key(t, other) && other != key {
            let p = position_of(t, other);
            assert(u[p].0 == other);
        }
    }
    assert forall|other: Text| other != key implies lookup(u, other) == lookup(t, other) by {
        if has_key(t, other) {
            let p = position_of(t, other);
            assert(u[p] == t[p]);
            lemma_lookup_row(u, p);
            lemma_lookup_row(t, p);
        }
    }
}

/// The table that a sequence of rows builds, each row put in its turn: a
/// symbol keeps the place of its first row and has the word of its last.
pub open spec fn rows_table(rows: Seq<Entry>) -> Seq<Entry>
    decreases rows.len(),
{
    if rows.len() == 0 {
        Seq::empty()
    } else {
        put(rows_table(rows.drop_last()), rows.last().0, rows.last().1)
    }
}

/// Whether row `i` is the last of `rows` with its symbol.
pub open spec fn is_last_of_its_symbol(rows: Seq<Entry>, i: int) -> bool {
    forall|j: int| i < j < rows.len() ==> (#[trigger] rows[j]).0 != rows[i].0
}

/// In a built table no symbol occurs twice, and the table is empty only
/// where there are no rows.
pub proof fn lemma_rows_table_is_a_table(rows: Seq<Entry>)
    ensures
        distinct_keys(rows_table(rows)),
        rows_table(rows).len() <= rows.len(),
        rows.len() > 0 ==> rows_table(rows).len() > 0,
    decreases rows.len(),
{
    if rows.len() > 0 {
        lemma_rows_table_is_a_table(rows.drop_last());
        lemma_put(rows_table(rows.drop_last()), rows.last().0, rows.last().1);
    }
}

/// The symbols of a built table are the symbols of the rows, and no
/// others.
pub proof fn lemma_rows_table_symbols(rows: Seq<Entry>, key: Text)
    ensures
        has_key(rows_table(rows), key) <==> has_key(rows, key),
    decreases rows.len(),
{
    if rows.len() > 0 {
        let front = rows.drop_last();
        lemma_rows_table_is_a_table(front);
        lemma_rows_table_symbols(front, key);
        lemma_put(rows_table(front), rows.last().0, rows.last().1);
        assert(has_key(rows_table(rows), key) <==> key == rows.last().0 || has_key(
            rows_table(front),
            key,
        ));
        if has_key(front, key) {
            let i = choose|i: int| 0 <= i < front.len() && (#[trigger] front[i]).0 == key;
            assert(rows[i] == front[i]);
        }
        if key == rows.last().0 {
            assert(rows[rows.len() - 1].0 == key);
        }
        if has_key(rows, key) && key != rows.last().0 {
            let i = choose|i: int| 0 <= i < rows.len() && (#[trigger] rows[i]).0 == key;
            assert(front[i] == rows[i]);
        }
    }
}

/// Of the rows with the same symbol the last one wins: its word is the
/// word that the built table has for the symbol.
pub proof fn lemma_last_row_wins(rows: Seq<Entry>, i: int)
    requires
        0 <= i < rows.len(),
        is_last_of_its_symbol(rows, i),
    ensures
        lookup(rows_table(rows), rows[i].0) == Some(rows[i].1),
    decreases rows.len(),
{
    let front = rows.drop_last();
    lemma_rows_table_is_a_table(front);
    lemma_put(rows_table(front), rows.last().0, rows.last().1);
    if i < front.len() {
        assert(front[i] == rows[i]);
        assert(rows[rows.len() - 1].0 != rows[i].0);
        assert(is_last_of_its_symbol(front, i)) by {
            assert forall|j: int| i < j < front.len() implies (#[trigger] front[j]).0
                != front[i].0 by {
                assert(front[j] == rows[j]);
            }
        }
        lemma_last_row_wins(front, i);
    }
}

/// Rows without a repeated symbol build themselves: the table holds them
/// as they are, in their order.
pub proof fn lemma_rows_table_of_distinct_rows(rows: Seq<Entry>)
    requires
        distinct_keys(rows),
    ensures
        rows_table(rows) == rows,
    decreases rows.len(),
{
    if rows.len() > 0 {
        let front = rows.drop_last();
        assert(distinct_keys(front)) by {
            assert forall|i: int, j: int| 0 <= i < j < front.len() implies (#[trigger] front[i]).0
                != (#[trigger] front[j]).0 by {
                assert(front[i] == rows[i] && front[j] == rows[j]);
            }
        }
        lemma_rows_table_of_distinct_rows(front);
        if has_key(front, rows.last().0) {
            let i = choose|i: int| 0 <= i < front.len() && (#[trigger] front[i]).0 == rows.last().0;
            assert(front[i] == rows[i]);
            assert(rows[i].0 != rows[rows.len() - 1].0);
        }
        assert(rows_table(rows) =~= rows);
    } else {
        assert(rows_table(rows) =~= rows);
    }
}

/// A table has only one longest symbol length.
pub proof fn lemma_longest_key_len_unique(t: Seq<Entry>, a: nat, b: nat)
    requires
        is_longest_key_len(t, a),
        is_longest_key_len(t, b),
    ensures
        a == b,
{
}

/// The longest symbol after a row is put into a table: the longer of the
/// new symbol and the longest symbol before. In an empty table the new
/// symbol is the longest.
pub proof fn lemma_put_longest(t: Seq<Entry>, key: Text, word: Text, len: nat)
    requires
        distinct_keys(t),
        t.len() > 0 ==> is_longest_key_len(t, len),
    ensures
        is_longest_key_len(
            put(t, key, word),
            if t.len() == 0 || key.len() > len {
                key.len()
            } else {
                len
            },
        ),
{
    let u = put(t, key, word);
    let at = if has_key(t, key) { position_of(t, key) } else { t.len() as int };
    assert(0 <= at < u.len() && u[at] == (key, word));
    assert forall|i: int| 0 <= i < u.len() && i != at implies #[trigger] u[i] == t[i] by {}
    if t.len() > 0 && key.len() <= len {
        let w = choose|i: int| 0 <= i < t.len() && (#[trigger] t[i]).0.len() == len;
        if w == at {
            assert(t[w].0 == key);
        } else {
            assert(u[w] == t[w]);
        }
    }
}

} // verus!
