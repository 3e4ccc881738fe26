//! The alphabets at hand: a set of named sources, from which an alphabet
//! is loaded by its name, and which can be listed.

use crate::alphabet::{pairs_view, table_of, SpellingAlphabet};
use crate::source::{find_char, first_index_of, is_well_formed, parse_pairs, source_pairs};
use crate::table::{Entry, Text};
use crate::text::{
    chars_of, lemma_text_le_transitive, lemma_text_lt_irreflexive, lemma_text_lt_transitive, precedes,
    text_lt,
};
use vstd::prelude::*;
use vstd::seq_lib::to_multiset_build;

verus! {

/// One alphabet as it is stored: its short name, such as `nato`, and its
/// source text. The text begins with `# ` and the alphabet's long name.
#[derive(Debug, Clone, PartialEq, Eq)]
pub struct AlphabetSource {
    pub name: String,
    pub text: String,
}

/// No alphabet of the name asked for is at hand.
#[derive(Debug, Clone, Copy, PartialEq, Eq)]
pub struct AlphabetNotFoundError {}

/// Why an alphabet could not be loaded.
#[derive(Debug, Clone, Copy, PartialEq, Eq)]
pub enum LoadError {
    /// No alphabet of that name is at hand.
    NotFound,
    /// An entry of the source holds no space between symbol and word.
    Malformed,
    /// The source holds no entry.
    Empty,
}

/// Whether one of `sources` has the name `name`.
pub open spec fn is_known(sources: Seq<AlphabetSource>, name: Text) -> bool {
    exists|i: int| 0 <= i < sources.len() && (#[trigger] sources[i]).name@ == name
}

/// `i` is the place of the first of `sources` that has the name `name`.
pub open spec fn is_first_named(sources: Seq<AlphabetSource>, name: Text, i: int) -> bool {
    &&& 0 <= i < sources.len()
    &&& sources[i].name@ == name
    &&& forall|k: int| 0 <= k < i ==> (#[trigger] sources[k]).name@ != name
}

/// The place of the first of `sources` that has the name `name`, where
/// one has it.
pub open spec fn first_named(sources: Seq<AlphabetSource>, name: Text) -> int {
    choose|i: int| is_first_named(sources, name, i)
}

/// What is said of a name that no source has.
pub open spec fn unknown_alphabet_message(name: Text) -> Text {
    "Unknown alphabet: "@ + name
}

/// The long name that a source text begins with: its first line without
/// the two characters in front.
pub open spec fn header_of(text: Text) -> Text {
    let rest = text.skip(2);
    rest.take(first_index_of(rest, '\n'))
}

/// Name and long name of each of `sources`, in their order.
pub open spec fn headers(sources: Seq<AlphabetSource>) -> Seq<Entry> {
    Seq::new(sources.len(), |i: int| (sources[i].name@, header_of(sources[i].text@)))
}

/// Whether the rows `s` stand in the order of their first parts.
pub open spec fn sorted_by_name(s: Seq<Entry>) -> bool {
    forall|i: int, j: int| 0 <= i < j < s.len() ==> !text_lt((#[trigger] s[j]).0, (#[trigger] s[i]).0)
}

/// The rows `s` with `x` put in behind the last row that does not have to
/// stand behind it.
pub open spec fn insert_by_name(s: Seq<Entry>, x: Entry) -> Seq<Entry>
    decreases s.len(),
{
    if s.len() > 0 && text_lt(x.0, s.last().0) {
        insert_by_name(s.drop_last(), x).push(s.last())
    } else {
        s.push(x)
    }
}

/// The rows `s` in the order of their first parts; rows with the same
/// first part keep the order that they have in `s`.
pub open spec fn sort_by_name(s: Seq<Entry>) -> Seq<Entry>
    decreases s.len(),
{
    if s.len() == 0 {
        Seq::empty()
    } else {
        insert_by_name(sort_by_name(s.drop_last()), s.last())
    }
}

/// Putting a row into sorted rows leaves them sorted, and adds that row
/// and nothing else.
pub proof fn lemma_insert_by_name(s: Seq<Entry>, x: Entry)
    requires
        sorted_by_name(s),
    ensures
        sorted_by_name(insert_by_name(s, x)),
        insert_by_name(s, x).len() == s.len() + 1,
        insert_by_name(s, x).to_multiset() == s.to_multiset().insert(x),
        forall|i: int|
            0 <= i < s.len() + 1 ==> (#[trigger] insert_by_name(s, x)[i]) == x || exists|k: int|
                0 <= k < s.len() && insert_by_name(s, x)[i] == s[k],
    decreases s.len(),
{
    let r = insert_by_name(s, x);
    if s.len() > 0 && text_lt(x.0, s.last().0) {
        let front = s.drop_last();
        let inner = insert_by_name(front, x);
        assert(sorted_by_name(front)) by {
            assert forall|i: int, j: int| 0 <= i < j < front.len() implies !text_lt(
                (#[trigger] front[j]).0,
                (#[trigger] front[i]).0,
            ) by {
                assert(front[i] == s[i] && front[j] == s[j]);
            }
        }
        lemma_insert_by_name(front, x);
        assert(s == front.push(s.last()));
        to_multiset_build(front, s.last());
        to_multiset_build(inner, s.last());
        assert(r.to_multiset() =~= s.to_multiset().insert(x));
        assert forall|i: int| 0 <= i < r.len() implies (#[trigger] r[i]) == x || exists|k: int|
            0 <= k < s.len() && r[i] == s[k] by {
            if i < inner.len() {
                if inner[i] != x {
                    let k = choose|k: int| 0 <= k < front.len() && inner[i] == front[k];
                    assert(r[i] == s[k]);
                }
            } else {
                assert(r[i] == s[s.len() - 1]);
            }
        }
        assert forall|i: int, j: int| 0 <= i < j < r.len() implies !text_lt(
            (#[trigger] r[j]).0,
            (#[trigger] r[i]).0,
        ) by {
            if j < inner.len() {
                assert(r[i] == inner[i] && r[j] == inner[j]);
            } else {
                assert(r[j] == s.last());
                assert(r[i] == inner[i]);
                if inner[i] == x {
                    if text_lt(s.last().0, x.0) {
                        lemma_text_lt_transitive(x.0, s.last().0, x.0);
                        lemma_text_lt_irreflexive(x.0);
                    }
                } else {
                    let k = choose|k: int| 0 <= k < front.len() && inner[i] == front[k];
                    assert(front[k] == s[k]);
                    assert(!text_lt(s[s.len() - 1].0, s[k].0));
                }
            }
        }
    } else {
        to_multiset_build(s, x);
        assert forall|i: int| 0 <= i < r.len() implies (#[trigger] r[i]) == x || exists|k: int|
            0 <= k < s.len() && r[i] == s[k] by {
            if i < s.len() {
                assert(r[i] == s[i]);
            }
        }
        assert forall|i: int, j: int| 0 <= i < j < r.len() implies !text_lt(
            (#[trigger] r[j]).0,
            (#[trigger] r[i]).0,
        ) by {
            if j < s.len() {
                assert(r[i] == s[i] && r[j] == s[j]);
            } else if s.len() > 0 {
                assert(r[i] == s[i]);
                if i < s.len() - 1 {
                    assert(!text_lt(s[s.len() - 1].0, s[i].0));
                    lemma_text_le_transitive(s[i].0, s.last().0, x.0);
                }
            }
        }
    }
}

/// Sorting puts the rows in order and neither adds nor loses one.
pub proof fn lemma_sort_by_name(s: Seq<Entry>)
    ensures
        sorted_by_name(sort_by_name(s)),
        sort_by_name(s).len() == s.len(),
        sort_by_name(s).to_multiset() == s.to_multiset(),
    decreases s.len(),
{
    if s.len() > 0 {
        lemma_sort_by_name(s.drop_last());
        lemma_insert_by_name(sort_by_name(s.drop_last()), s.last());
        assert(s == s.drop_last().push(s.last()));
        to_multiset_build(s.drop_last(), s.last());
    } else {
        assert(s == Seq::<Entry>::empty());
    }
}

/// Whether `r` is what reading the source text `text` gives: the alphabet
/// built of its entries where it is well formed and has an entry,
/// `Malformed` where it is not well formed, `Empty` where it is well
/// formed and has no entry.
pub open spec fn is_reading_of(r: Result<SpellingAlphabet, LoadError>, text: Text) -> bool {
    match r {
        Ok(alphabet) => {
            &&& is_well_formed(text)
            &&& source_pairs(text).len() > 0
            &&& alphabet.wf()
            &&& alphabet.table() == table_of(source_pairs(text))
        },
        Err(LoadError::Malformed) => !is_well_formed(text),
        Err(LoadError::Empty) => is_well_formed(text) && source_pairs(text).len() == 0,
        Err(LoadError::NotFound) => false,
    }
}

/// There is only one first source of a name.
pub proof fn lemma_first_named_unique(sources: Seq<AlphabetSource>, name: Text, i: int)
    requires
        is_first_named(sources, name, i),
    ensures
        is_known(sources, name),
        first_named(sources, name) == i,
{
    let j = first_named(sources, name);
    assert(is_first_named(sources, name, j));
    if j < i {
        assert(sources[j].name@ != name);
    } else if i < j {
        assert(sources[i].name@ != name);
    }
}

/// Finds the source of the name `name`: the first of `sources` that has
/// it. Fails exactly when none has it.
pub fn find_source<'a>(name: &str, sources: &'a Vec<AlphabetSource>) -> (r: Result<
    &'a AlphabetSource,
    AlphabetNotFoundError,
>)
    ensures
        r is Ok <==> is_known(sources@, name@),
        r matches Ok(source) ==> *source == sources@[first_named(sources@, name@)],
{
    let wanted = name.to_owned();
    let mut i: usize = 0;
    while i < sources.len()
        invariant
            i <= sources.len(),
            wanted@ == name@,
            forall|k: int| 0 <= k < i ==> (#[trigger] sources@[k]).name@ != name@,
        decreases sources.len() - i,
    {
        if sources[i].name == wanted {
            proof {
                lemma_first_named_unique(sources@, name@, i as int);
            }
            return Ok(&sources[i]);
        }
        i += 1;
    }
    Err(AlphabetNotFoundError {})
}

/// Checks that an alphabet of the name `s` is at hand. Where none is, the
/// error is the message to show.
pub fn validate_alphabet(s: &str, sources: &Vec<AlphabetSource>) -> (r: Result<(), String>)
    ensures
        r is Ok <==> is_known(sources@, s@),
        r matches Err(message) ==> message@ == unknown_alphabet_message(s@),
{
    match find_source(s, sources) {
        Ok(_) => Ok(()),
        Err(_) => Err(String::from_str("Unknown alphabet: ").concat(s)),
    }
}

/// The long name that the source text `text` begins with.
fn read_header(text: &str) -> (r: String)
    requires
        text@.len() >= 2,
    ensures
        r@ == header_of(text@),
{
    let chars = chars_of(text);
    let end = find_char(&chars, 2, chars.len(), '\n');
    proof {
        assert(chars@.subrange(2, chars.len() as int) == text@.skip(2));
        assert(text@.subrange(2, end as int) == text@.skip(2).take(end - 2));
    }
    text.substring_char(2, end).to_owned()
}

impl AlphabetSource {
    /// Whether the text is long enough to begin with the two characters
    /// that stand before the long name.
    pub fn has_header(&self) -> (r: bool)
        ensures
            r == (self.text@.len() >= 2),
    {
        self.text.as_str().unicode_len() >= 2
    }
}

impl SpellingAlphabet {
    /// Reads an alphabet from its source text.
    ///
    /// Fails with `Malformed` exactly when the text is not well formed, and
    /// with `Empty` exactly when it is well formed and holds no entry.
    /// Otherwise the alphabet is the one that
    /// [`SpellingAlphabet::build`] makes of the entries.
    pub fn from_text(text: &str) -> (r: Result<SpellingAlphabet, LoadError>)
        ensures
            is_reading_of(r, text@),
    {
        match parse_pairs(text) {
            None => Err(LoadError::Malformed),
            Some(pairs) => match SpellingAlphabet::build(&pairs) {
                Ok(alphabet) => Ok(alphabet),
                Err(_) => Err(LoadError::Empty),
            },
        }
    }

    /// Loads the alphabet of the name `name` from the first of `sources`
    /// that has that name.
    ///
    /// Fails with `NotFound` exactly when no source has the name, and else
    /// does as [`SpellingAlphabet::from_text`] does on the text of that
    /// source.
    pub fn load(name: &str, sources: &Vec<AlphabetSource>) -> (r: Result<
        SpellingAlphabet,
        LoadError,
    >)
        ensures
            if is_known(sources@, name@) {
                is_reading_of(r, sources@[first_named(sources@, name@)].text@)
            } else {
                r matches Err(LoadError::NotFound)
            },
    {
        match find_source(name, sources) {
            Ok(source) => SpellingAlphabet::from_text(source.text.as_str()),
            Err(_) => Err(LoadError::NotFound),
        }
    }

    /// Checks that an alphabet of the name `s` is at hand, and gives the
    /// name back. Where none is, the error is the message to show.
    pub fn validate(s: &str, sources: &Vec<AlphabetSource>) -> (r: Result<String, String>)
        ensures
            r is Ok <==> is_known(sources@, s@),
            r matches Ok(name) ==> name@ == s@,
            r matches Err(message) ==> message@ == unknown_alphabet_message(s@),
    {
        match validate_alphabet(s, sources) {
            Ok(_) => Ok(s.to_owned()),
            Err(message) => Err(message),
        }
    }

    /// Lists the alphabets at hand: the name and the long name of each
    /// source, in the order of the names. Sources of the same name keep
    /// their order.
    pub fn list(sources: &Vec<AlphabetSource>) -> (r: Vec<(String, String)>)
        requires
            forall|i: int| 0 <= i < sources@.len() ==> (#[trigger] sources@[i]).text@.len() >= 2,
        ensures
            pairs_view(r@) == sort_by_name(headers(sources@)),
    {
        let ghost all = headers(sources@);
        let mut result: Vec<(String, String)> = Vec::new();
        let mut i: usize = 0;
        while i < sources.len()
            invariant
                i <= sources.len(),
                all == headers(sources@),
                forall|k: int|
                    0 <= k < sources@.len() ==> (#[trigger] sources@[k]).text@.len() >= 2,
                pairs_view(result@) == sort_by_name(all.take(i as int)),
            decreases sources.len() - i,
        {
            let name = sources[i].name.clone();
            let header = read_header(sources[i].text.as_str());
            let ghost sorted = pairs_view(result@);
            let ghost row = (name@, header@);
            proof {
                assert(all.take(i + 1).drop_last() == all.take(i as int));
                assert(all.take(i + 1).last() == row);
            }
            let mut at = result.len();
            proof {
                assert(sorted.take(at as int) == sorted);
                assert(insert_by_name(sorted, row) + sorted.skip(at as int) == insert_by_name(
                    sorted,
                    row,
                ));
            }
            while at > 0 && precedes(name.as_str(), result[at - 1].0.as_str())
                invariant
                    at <= result.len(),
                    sorted == pairs_view(result@),
                    row.0 == name@,
                    insert_by_name(sorted, row) == insert_by_name(sorted.take(at as int), row)
                        + sorted.skip(at as int),
                decreases at,
            {
                proof {
                    let front = sorted.take(at as int);
                    assert(front.last() == sorted[at - 1]);
                    assert(front.drop_last() == sorted.take(at - 1));
                    assert(insert_by_name(front, row) == insert_by_name(front.drop_last(), row).push(
                        front.last(),
                    ));
                    assert(insert_by_name(front.drop_last(), row).push(front.last()) + sorted.skip(
                        at as int,
                    ) == insert_by_name(front.drop_last(), row) + sorted.skip(at - 1));
                }
                at -= 1;
            }
            proof {
                let front = sorted.take(at as int);
                if at > 0 {
                    assert(front.last() == sorted[at - 1]);
                }
                assert(insert_by_name(front, row) == front.push(row));
                assert(front.push(row) + sorted.skip(at as int) == sorted.insert(at as int, row));
            }
            result.insert(at, (name, header));
            assert(pairs_view(result@) == sorted.insert(at as int, row));
            i += 1;
        }
        assert(all.take(i as int) == all);
        result
    }
}

} // verus!
