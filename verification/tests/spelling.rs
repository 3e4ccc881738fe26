use salph::{EmptyAlphabetError, Spelling, SpellingAlphabet};

fn pairs(pairs: &[(&str, &str)]) -> Vec<(String, String)> {
    pairs.iter().map(|(s, w)| (s.to_string(), w.to_string())).collect()
}

fn alphabet(entries: &[(&str, &str)]) -> SpellingAlphabet {
    SpellingAlphabet::build(&pairs(entries)).unwrap()
}

fn words(alphabet: &SpellingAlphabet, input: &str) -> Vec<String> {
    alphabet.str_to_spellings(input).into_iter().map(|s| s.spelling).collect()
}

fn spelling(word: &str, is_number: bool) -> Spelling {
    Spelling { spelling: word.to_string(), is_number }
}

fn nato() -> SpellingAlphabet {
    alphabet(&[
        ("A", "Alpha"),
        ("B", "Bravo"),
        ("C", "Charlie"),
        ("1", "one"),
        ("2", "two"),
        ("3", "three"),
        ("8", "eight"),
        ("9", "nine"),
    ])
}

#[test]
fn spells_letters_in_order() {
    let a = alphabet(&[("a", "Alpha"), ("b", "Bravo"), ("c", "Charlie")]);
    assert_eq!(words(&a, "abc"), vec!["Alpha", "Bravo", "Charlie"]);
}

#[test]
fn spells_letters_and_digits() {
    assert_eq!(
        nato().str_to_spellings("abc123"),
        vec![
            spelling("Alpha", false),
            spelling("Bravo", false),
            spelling("Charlie", false),
            spelling("one", true),
            spelling("two", true),
            spelling("three", true),
        ]
    );
    assert_eq!(words(&nato(), "Abc98"), vec!["Alpha", "Bravo", "Charlie", "nine", "eight"]);
}

#[test]
fn digraph_wins_over_its_letters() {
    let a = alphabet(&[("ch", "CH-sound"), ("c", "C-sound"), ("h", "H-sound")]);
    assert_eq!(words(&a, "ch"), vec!["CH-sound"]);
    assert_eq!(words(&a, "hc"), vec!["H-sound", "C-sound"]);
    assert_eq!(words(&a, "cch"), vec!["C-sound", "CH-sound"]);
    assert_eq!(words(&a, "chc"), vec!["CH-sound", "C-sound"]);
}

#[test]
fn longest_symbol_is_preferred() {
    let a = alphabet(&[("l", "Lima"), ("ll", "Elle")]);
    assert_eq!(words(&a, "ll"), vec!["Elle"]);
    assert_eq!(words(&a, "lll"), vec!["Elle", "Lima"]);
    assert_eq!(words(&a, "llll"), vec!["Elle", "Elle"]);
    assert_eq!(words(&a, "l"), vec!["Lima"]);
}

#[test]
fn longest_symbol_needs_no_shorter_one() {
    let a = alphabet(&[("abc", "Triple"), ("a", "Alpha")]);
    assert_eq!(words(&a, "abc"), vec!["Triple"]);
    assert_eq!(words(&a, "ab"), vec!["Alpha"]);
    assert_eq!(words(&a, "aabc"), vec!["Alpha", "Triple"]);
    assert_eq!(words(&a, "bcabc"), vec!["Triple"]);
}

#[test]
fn digits_are_marked_as_numbers() {
    let a = alphabet(&[("1", "one"), ("2", "two")]);
    assert_eq!(a.str_to_spellings("12"), vec![spelling("one", true), spelling("two", true)]);
}

#[test]
fn number_mark_follows_the_integer_literal() {
    let a = alphabet(&[
        ("12", "twelve"),
        ("+1", "plus one"),
        ("-1", "minus one"),
        ("-", "dash"),
        ("+", "plus"),
        ("1a", "one-a"),
        ("1+", "one plus"),
        ("+-1", "plus minus one"),
        ("1.5", "one and a half"),
        ("٣", "Arabic three"),
        ("007", "bond"),
        ("x", "Xray"),
    ]);
    assert_eq!(a.str_to_spellings("12"), vec![spelling("twelve", true)]);
    assert_eq!(a.str_to_spellings("+1"), vec![spelling("plus one", true)]);
    assert_eq!(a.str_to_spellings("-1"), vec![spelling("minus one", true)]);
    assert_eq!(a.str_to_spellings("-"), vec![spelling("dash", false)]);
    assert_eq!(a.str_to_spellings("+"), vec![spelling("plus", false)]);
    assert_eq!(a.str_to_spellings("1a"), vec![spelling("one-a", false)]);
    assert_eq!(a.str_to_spellings("1A"), vec![spelling("one-a", false)]);
    assert_eq!(a.str_to_spellings("1+"), vec![spelling("one plus", false)]);
    assert_eq!(a.str_to_spellings("+-1"), vec![spelling("plus minus one", false)]);
    assert_eq!(a.str_to_spellings("1.5"), vec![spelling("one and a half", false)]);
    assert_eq!(a.str_to_spellings("٣"), vec![spelling("Arabic three", false)]);
    assert_eq!(a.str_to_spellings("007"), vec![spelling("bond", true)]);
    assert_eq!(a.str_to_spellings("x"), vec![spelling("Xray", false)]);
}

#[test]
fn digits_of_any_number_are_a_number() {
    let a = alphabet(&[
        ("2147483647", "largest of 32 bits"),
        ("2147483648", "one more"),
        ("-2147483648", "smallest of 32 bits"),
        ("-2147483649", "one less"),
        ("9999999999", "ten nines"),
        ("99999999999", "eleven nines"),
        ("123456789012345678901234567890", "thirty digits"),
    ]);
    assert_eq!(a.str_to_spellings("2147483647"), vec![spelling("largest of 32 bits", true)]);
    assert_eq!(a.str_to_spellings("2147483648"), vec![spelling("one more", true)]);
    assert_eq!(a.str_to_spellings("-2147483648"), vec![spelling("smallest of 32 bits", true)]);
    assert_eq!(a.str_to_spellings("-2147483649"), vec![spelling("one less", true)]);
    assert_eq!(a.str_to_spellings("9999999999"), vec![spelling("ten nines", true)]);
    assert_eq!(a.str_to_spellings("99999999999"), vec![spelling("eleven nines", true)]);
    assert_eq!(
        a.str_to_spellings("123456789012345678901234567890"),
        vec![spelling("thirty digits", true)]
    );
}

#[test]
fn letters_are_never_a_number() {
    let a = alphabet(&[("a", "Alpha"), ("ch", "Charlie-Hotel"), ("ll", "Elle"), ("Ñ", "Ñoño")]);
    assert_eq!(
        a.str_to_spellings("aCHllñ"),
        vec![
            spelling("Alpha", false),
            spelling("Charlie-Hotel", false),
            spelling("Elle", false),
            spelling("Ñoño", false),
        ]
    );
}

#[test]
fn integer_literal_is_a_sign_and_digits() {
    assert!(salph::text::is_integer("0"));
    assert!(salph::text::is_integer("42"));
    assert!(salph::text::is_integer("+42"));
    assert!(salph::text::is_integer("-42"));
    assert!(salph::text::is_integer("00000000000000000000000000000000000001"));
    assert!(salph::text::is_integer("340282366920938463463374607431768211456"));
    assert!(!salph::text::is_integer(""));
    assert!(!salph::text::is_integer("+"));
    assert!(!salph::text::is_integer("-"));
    assert!(!salph::text::is_integer("--1"));
    assert!(!salph::text::is_integer("1-"));
    assert!(!salph::text::is_integer(" 1"));
    assert!(!salph::text::is_integer("1 "));
    assert!(!salph::text::is_integer("1_000"));
    assert!(!salph::text::is_integer("0x10"));
    assert!(!salph::text::is_integer("a"));
    assert!(!salph::text::is_integer("١٢٣"));
}

#[test]
fn unknown_characters_are_passed_over() {
    let a = alphabet(&[("a", "Alpha")]);
    assert_eq!(words(&a, "xa"), vec!["Alpha"]);
    assert_eq!(words(&a, "axa"), vec!["Alpha", "Alpha"]);
    assert_eq!(words(&a, "xyz"), Vec::<String>::new());
    assert_eq!(words(&a, " a a "), vec!["Alpha", "Alpha"]);
}

#[test]
fn empty_text_has_no_spelling() {
    let a = alphabet(&[("a", "Alpha")]);
    assert_eq!(a.str_to_spellings(""), Vec::<Spelling>::new());
}

#[test]
fn case_is_disregarded() {
    let a = alphabet(&[("a", "Alpha"), ("b", "Bravo"), ("c", "Charlie")]);
    assert_eq!(words(&a, "ABC"), words(&a, "abc"));
    assert_eq!(words(&a, "ABC"), vec!["Alpha", "Bravo", "Charlie"]);
    assert_eq!(words(&a, "aBc"), vec!["Alpha", "Bravo", "Charlie"]);
}

#[test]
fn symbols_are_kept_in_lowercase() {
    let a = alphabet(&[("CH", "Charlie-Hotel"), ("Ä", "Aerger")]);
    assert_eq!(words(&a, "ch"), vec!["Charlie-Hotel"]);
    assert_eq!(words(&a, "Ch"), vec!["Charlie-Hotel"]);
    assert_eq!(words(&a, "ä"), vec!["Aerger"]);
    assert_eq!(words(&a, "Ä"), vec!["Aerger"]);
}

#[test]
fn positions_count_characters_not_bytes() {
    let a = alphabet(&[("é", "Etienne"), ("a", "Anatole"), ("ñu", "Gnu")]);
    assert_eq!(words(&a, "éa"), vec!["Etienne", "Anatole"]);
    assert_eq!(words(&a, "aéa"), vec!["Anatole", "Etienne", "Anatole"]);
    assert_eq!(words(&a, "ñuéñua"), vec!["Gnu", "Etienne", "Gnu", "Anatole"]);
    assert_eq!(words(&a, "ñé"), vec!["Etienne"]);
}

#[test]
fn last_pair_of_a_symbol_gives_the_word() {
    let a = alphabet(&[("a", "Alpha"), ("b", "Bravo"), ("A", "Anton")]);
    assert_eq!(words(&a, "ab"), vec!["Anton", "Bravo"]);
    assert_eq!(a.to_display_string(), "A Anton\nB Bravo");
}

#[test]
fn same_input_same_spelling() {
    let a = nato();
    assert_eq!(a.str_to_spellings("a1b2"), a.str_to_spellings("a1b2"));
    let copy = a.clone();
    assert_eq!(copy.str_to_spellings("a1b2"), a.str_to_spellings("a1b2"));
    assert_eq!(copy.to_display_string(), a.to_display_string());
}

#[test]
fn every_character_counts_once() {
    let a = alphabet(&[("ab", "AB"), ("b", "B"), ("bc", "BC")]);
    assert_eq!(words(&a, "abc"), vec!["AB"]);
    assert_eq!(words(&a, "abbc"), vec!["AB", "BC"]);
    assert_eq!(words(&a, "bab"), vec!["B", "AB"]);
}

#[test]
fn words_alone() {
    let a = alphabet(&[("a", "Alpha"), ("1", "one")]);
    assert_eq!(a.string_to_words("a1?A"), vec!["Alpha", "one", "Alpha"]);
    assert_eq!(a.string_to_words(""), Vec::<String>::new());
}

#[test]
fn spelling_shows_its_word() {
    assert_eq!(spelling("Alpha", false).to_display_string(), "Alpha");
    assert_eq!(spelling("one", true).to_display_string(), "one");
}

#[test]
fn listing_keeps_the_order_of_insertion() {
    let a = alphabet(&[("a", "Alpha"), ("b", "Bravo")]);
    assert_eq!(a.to_display_string(), "A Alpha\nB Bravo");
    let b = alphabet(&[("z", "Zulu"), ("ll", "Elle"), ("1", "one")]);
    assert_eq!(b.to_display_string(), "Z Zulu\nLL Elle\n1 one");
}

#[test]
fn listing_of_one_symbol_has_one_line() {
    let a = alphabet(&[("a", "Alpha")]);
    assert_eq!(a.to_display_string(), "A Alpha");
}

#[test]
fn format_rows_joins_lines() {
    assert_eq!(salph::alphabet::format_rows(&pairs(&[])), "");
    assert_eq!(salph::alphabet::format_rows(&pairs(&[("x", "y z")])), "x y z");
    assert_eq!(salph::alphabet::format_rows(&pairs(&[("a", "b"), ("", ""), ("c", "d")])), "a b\n \nc d");
}

#[test]
fn no_pairs_make_no_alphabet() {
    assert_eq!(SpellingAlphabet::build(&Vec::new()).err(), Some(EmptyAlphabetError {}));
    assert_eq!(SpellingAlphabet::from_rows(&Vec::new()).err(), Some(EmptyAlphabetError {}));
}

#[test]
fn rows_are_taken_as_they_are() {
    let a = SpellingAlphabet::from_rows(&pairs(&[("a", "Alpha"), ("B", "Bravo")])).unwrap();
    assert_eq!(a.string_to_words("ab"), vec!["Alpha"]);
    assert_eq!(a.string_to_words("AB"), vec!["Alpha"]);
    assert_eq!(a.to_display_string(), "A Alpha\nB Bravo");
}

#[test]
fn longest_match_picks_the_longest_candidate() {
    let a = alphabet(&[("l", "Lima"), ("ll", "Elle"), ("7", "seven"), ("9999999999", "nines")]);
    let candidates = |texts: &[&str]| texts.iter().map(|t| t.to_string()).collect::<Vec<String>>();
    assert_eq!(a.longest_match(&candidates(&["l", "ll"])), Some((2, spelling("Elle", false))));
    assert_eq!(a.longest_match(&candidates(&["l", "lx"])), Some((1, spelling("Lima", false))));
    assert_eq!(a.longest_match(&candidates(&["x", "xl"])), None);
    assert_eq!(a.longest_match(&candidates(&["7"])), Some((1, spelling("seven", true))));
    assert_eq!(a.longest_match(&candidates(&["9999999999"])), Some((1, spelling("nines", true))));
    assert_eq!(a.longest_match(&candidates(&[])), None);
}
