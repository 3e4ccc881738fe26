//! Alphabet sources: the text in which an alphabet is written down.
//!
//! A source is a text of lines, divided by line feeds. An empty line and a
//! line that begins with `#` say nothing of the alphabet. Every other line
//! is an entry: a symbol, one space, and the word for the symbol, which is
//! the rest of the line.

use crate::alphabet::pairs_view;
use crate::table::{Entry, Text};
use crate::text::chars_of;
use vstd::prelude::*;

verus! {

/// `i` is the position of the first `c` in `s`, or the length of `s` where
/// `s` holds no `c`.
pub open spec fn is_first_index_of(s: Text, c: char, i: int) -> bool {
    &&& 0 <= i <= s.len()
    &&& forall|k: int| 0 <= k < i ==> s[k] != c
    &&& i < s.len() ==> s[i] == c
}

/// The position of the first `c` in `s`, or the length of `s` where `s`
/// holds no `c`.
pub open spec fn first_index_of(s: Text, c: char) -> int {
    choose|i: int| is_first_index_of(s, c, i)
}

/// Every text has a first position of `c` in the sense of
/// [`is_first_index_of`].
pub proof fn lemma_first_index_exists(s: Text, c: char)
    ensures
        is_first_index_of(s, c, first_index_of(s, c)),
    decreases s.len(),
{
    if s.len() == 0 {
        assert(is_first_index_of(s, c, 0));
    } else {
        let front = s.drop_last();
        lemma_first_index_exists(front, c);
        let i = first_index_of(front, c);
        assert forall|k: int| 0 <= k < i implies s[k] != c by {
            assert(front[k] == s[k]);
        }
        if i < front.len() {
            assert(front[i] == s[i]);
            assert(is_first_index_of(s, c, i));
        } else if s.last() == c {
            assert(is_first_index_of(s, c, i));
        } else {
            assert(is_first_index_of(s, c, i + 1));
        }
    }
}

/// There is only one first position.
pub proof fn lemma_first_index_unique(s: Text, c: char, i: int)
    requires
        is_first_index_of(s, c, i),
    ensures
        first_index_of(s, c) == i,
{
    let j = first_index_of(s, c);
    assert(is_first_index_of(s, c, j));
    if j < i {
        assert(s[j] != c);
    } else if i < j {
        assert(s[i] != c);
    }
}

/// The lines of a text: the stretches between its line feeds. A text ends
/// with a line of its own behind its last line feed, which may be empty.
pub open spec fn lines(text: Text) -> Seq<Text>
    decreases text.len(),
    via lines_terminates
{
    let end = first_index_of(text, '\n');
    if end < text.len() {
        seq![text.take(end)] + lines(text.skip(end + 1))
    } else {
        seq![text]
    }
}

#[via_fn]
proof fn lines_terminates(text: Text) {
    lemma_first_index_exists(text, '\n');
}

/// Whether a line is an entry: it is not empty and does not begin with
/// `#`.
pub open spec fn is_entry_line(line: Text) -> bool {
    line.len() > 0 && line[0] != '#'
}

/// Whether an entry line can be read: it holds a space.
pub open spec fn is_readable_entry(line: Text) -> bool {
    first_index_of(line, ' ') < line.len()
}

/// The symbol and the word of an entry line: what stands before its first
/// space, and what stands behind it.
pub open spec fn entry_of(line: Text) -> Entry {
    let at = first_index_of(line, ' ');
    (line.take(at), line.skip(at + 1))
}

/// Whether every entry among the lines `ls` can be read.
pub open spec fn all_readable(ls: Seq<Text>) -> bool {
    forall|i: int| 0 <= i < ls.len() && is_entry_line(#[trigger] ls[i]) ==> is_readable_entry(ls[i])
}

/// The `(symbol, word)` pairs of the entries among the lines `ls`, in
/// order.
pub open spec fn entries_of_lines(ls: Seq<Text>) -> Seq<Entry>
    decreases ls.len(),
{
    if ls.len() == 0 {
        Seq::empty()
    } else if is_entry_line(ls.last()) {
        entries_of_lines(ls.drop_last()).push(entry_of(ls.last()))
    } else {
        entries_of_lines(ls.drop_last())
    }
}

/// Whether a source text is well formed: each of its entries holds a
/// space between symbol and word.
pub open spec fn is_well_formed(text: Text) -> bool {
    all_readable(lines(text))
}

/// The `(symbol, word)` pairs that a source text gives, in the order of
/// its lines. The symbols stand as they are written.
pub open spec fn source_pairs(text: Text) -> Seq<Entry> {
    entries_of_lines(lines(text))
}

/// The position of the first `c` among the characters from `from` up to
/// `to`, or `to` where there is none.
pub(crate) fn find_char(chars: &Vec<char>, from: usize, to: usize, c: char) -> (at: usize)
    requires
        from <= to <= chars.len(),
    ensures
        from <= at <= to,
        at - from == first_index_of(chars@.subrange(from as int, to as int), c),
{
    let mut at = from;
    while at < to && chars[at] != c
        invariant
            from <= at <= to <= chars.len(),
            forall|k: int| from <= k < at ==> chars@[k] != c,
        decreases to - at,
    {
        at += 1;
    }
    proof {
        lemma_first_index_unique(chars@.subrange(from as int, to as int), c, at - from);
    }
    at
}

/// Reads the entries of a source text.
///
/// Gives the `(symbol, word)` pairs of its entry lines in order, the
/// symbols as they are written, or nothing where the text is not well
/// formed: where an entry holds no space.
pub fn parse_pairs(text: &str) -> (r: Option<Vec<(String, String)>>)
    ensures
        r is Some <==> is_well_formed(text@),
        r matches Some(pairs) ==> pairs_view(pairs@) == source_pairs(text@),
{
    let chars = chars_of(text);
    let n = chars.len();
    let mut pairs: Vec<(String, String)> = Vec::new();
    let ghost mut done: Seq<Text> = Seq::empty();
    let mut pos: usize = 0;
    proof {
        assert(text@.skip(0) == text@);
        assert(done + lines(text@) == lines(text@));
    }
    loop
        invariant
            chars@ == text@,
            n == chars.len(),
            pos <= n,
            lines(text@) == done + lines(text@.skip(pos as int)),
            all_readable(done),
            pairs_view(pairs@) == entries_of_lines(done),
        decreases n - pos,
    {
        let end = find_char(&chars, pos, n, '\n');
        let ghost rest = text@.skip(pos as int);
        let ghost line = text@.subrange(pos as int, end as int);
        proof {
            assert(rest == chars@.subrange(pos as int, n as int));
            lemma_first_index_exists(rest, '\n');
            assert(line == rest.take(end - pos));
            if end < n {
                assert(rest.skip(end - pos + 1) == text@.skip(end + 1));
            } else {
                assert(line == rest);
            }
            assert(lines(rest) == if end < n {
                seq![line] + lines(text@.skip(end + 1))
            } else {
                seq![line]
            });
            assert(done.push(line).drop_last() == done);
        }
        if end > pos && chars[pos] != '#' {
            let space = find_char(&chars, pos, end, ' ');
            if space == end {
                proof {
                    let all = lines(text@);
                    assert(all[done.len() as int] == line);
                }
                return None;
            }
            let symbol = text.substring_char(pos, space).to_owned();
            let word = text.substring_char(space + 1, end).to_owned();
            let ghost before = pairs_view(pairs@);
            pairs.push((symbol, word));
            proof {
                assert(symbol@ == line.take(space - pos));
                assert(word@ == line.skip(space - pos + 1));
                assert(pairs_view(pairs@) == before.push(entry_of(line)));
            }
        }
        proof {
            done = done.push(line);
        }
        if end == n {
            assert(lines(text@) == done);
            return Some(pairs);
        }
        pos = end + 1;
    }
}

} // verus!
