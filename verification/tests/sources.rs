use salph::source::parse_pairs;
use salph::text::chars_of;
use salph::{validate_alphabet, AlphabetNotFoundError, AlphabetSource, LoadError, SpellingAlphabet};

const NATO: &str = "# NATO phonetic alphabet\nA Alpha\nB Bravo\nC Charlie\n\n# digits\n1 one\n2 two\n";
const SPANISH: &str = "# Spanish\nL Lima\nLL Elle\nÑ Ñoño\n";

fn source(name: &str, text: &str) -> AlphabetSource {
    AlphabetSource { name: name.to_string(), text: text.to_string() }
}

fn sources() -> Vec<AlphabetSource> {
    vec![source("nato", NATO), source("es", SPANISH), source("de", "# Deutsch\nSCH Schule\n")]
}

fn pair(symbol: &str, word: &str) -> (String, String) {
    (symbol.to_string(), word.to_string())
}

#[test]
fn text_is_read_character_by_character() {
    assert_eq!(chars_of("añ\n"), vec!['a', 'ñ', '\n']);
    assert_eq!(chars_of(""), Vec::<char>::new());
}

#[test]
fn entries_are_read_in_order() {
    assert_eq!(
        parse_pairs(NATO),
        Some(vec![
            pair("A", "Alpha"),
            pair("B", "Bravo"),
            pair("C", "Charlie"),
            pair("1", "one"),
            pair("2", "two"),
        ])
    );
}

#[test]
fn comments_and_empty_lines_are_no_entries() {
    assert_eq!(parse_pairs("# only a header"), Some(vec![]));
    assert_eq!(parse_pairs(""), Some(vec![]));
    assert_eq!(parse_pairs("\n\n"), Some(vec![]));
    assert_eq!(parse_pairs("#a b\n\n#\nx y"), Some(vec![pair("x", "y")]));
}

#[test]
fn word_is_the_rest_of_the_line() {
    assert_eq!(parse_pairs("a Alpha Beta"), Some(vec![pair("a", "Alpha Beta")]));
    assert_eq!(parse_pairs("a  Alpha"), Some(vec![pair("a", " Alpha")]));
    assert_eq!(parse_pairs("a \n"), Some(vec![pair("a", "")]));
    assert_eq!(parse_pairs(" Alpha"), Some(vec![pair("", "Alpha")]));
    assert_eq!(parse_pairs("a #b"), Some(vec![pair("a", "#b")]));
}

#[test]
fn last_line_needs_no_line_feed() {
    assert_eq!(parse_pairs("a b\nc d"), Some(vec![pair("a", "b"), pair("c", "d")]));
    assert_eq!(parse_pairs("a b\nc d\n"), Some(vec![pair("a", "b"), pair("c", "d")]));
}

#[test]
fn entry_without_space_is_malformed() {
    assert_eq!(parse_pairs("a Alpha\nb\nc Charlie"), None);
    assert_eq!(parse_pairs("abc"), None);
    assert_eq!(parse_pairs("a Alpha\nb"), None);
}

#[test]
fn alphabet_is_read_from_text() {
    let a = SpellingAlphabet::from_text(SPANISH).unwrap();
    assert_eq!(a.string_to_words("llñl"), vec!["Elle", "Ñoño", "Lima"]);
    assert_eq!(a.to_display_string(), "L Lima\nLL Elle\nÑ Ñoño");
}

#[test]
fn text_without_entries_is_empty() {
    assert_eq!(SpellingAlphabet::from_text("# nothing\n\n").err(), Some(LoadError::Empty));
    assert_eq!(SpellingAlphabet::from_text("").err(), Some(LoadError::Empty));
}

#[test]
fn text_with_unreadable_entry_is_malformed() {
    assert_eq!(SpellingAlphabet::from_text("# x\nA Alpha\nB").err(), Some(LoadError::Malformed));
    assert_eq!(SpellingAlphabet::from_text("B").err(), Some(LoadError::Malformed));
}

#[test]
fn load_finds_the_alphabet_by_name() {
    let a = SpellingAlphabet::load("nato", &sources()).unwrap();
    assert_eq!(a.string_to_words("abc12"), vec!["Alpha", "Bravo", "Charlie", "one", "two"]);
    let b = SpellingAlphabet::load("de", &sources()).unwrap();
    assert_eq!(b.string_to_words("Schach"), vec!["Schule"]);
}

#[test]
fn load_takes_the_first_source_of_a_name() {
    let all = vec![source("x", "# one\na first\n"), source("x", "# two\na second\n")];
    let a = SpellingAlphabet::load("x", &all).unwrap();
    assert_eq!(a.string_to_words("a"), vec!["first"]);
}

#[test]
fn load_says_why_it_failed() {
    let all = vec![source("empty", "# nothing\n"), source("bad", "# x\nabc\n")];
    assert_eq!(SpellingAlphabet::load("nato", &all).err(), Some(LoadError::NotFound));
    assert_eq!(SpellingAlphabet::load("empty", &all).err(), Some(LoadError::Empty));
    assert_eq!(SpellingAlphabet::load("bad", &all).err(), Some(LoadError::Malformed));
    assert_eq!(SpellingAlphabet::load("nato", &Vec::new()).err(), Some(LoadError::NotFound));
}

#[test]
fn find_source_by_name() {
    let all = sources();
    assert_eq!(salph::catalog::find_source("es", &all).map(|s| s.text.as_str()), Ok(SPANISH));
    assert_eq!(
        salph::catalog::find_source("fr", &all).map(|s| s.text.as_str()),
        Err(AlphabetNotFoundError {})
    );
    assert_eq!(
        salph::catalog::find_source("NATO", &all).map(|s| s.text.as_str()),
        Err(AlphabetNotFoundError {})
    );
}

#[test]
fn known_names_are_valid() {
    assert_eq!(validate_alphabet("nato", &sources()), Ok(()));
    assert_eq!(SpellingAlphabet::validate("nato", &sources()), Ok("nato".to_string()));
}

#[test]
fn unknown_names_get_a_message() {
    assert_eq!(
        validate_alphabet("nonexistent", &sources()),
        Err("Unknown alphabet: nonexistent".to_string())
    );
    assert_eq!(
        SpellingAlphabet::validate("nonexistent", &sources()),
        Err("Unknown alphabet: nonexistent".to_string())
    );
    assert_eq!(validate_alphabet("", &sources()), Err("Unknown alphabet: ".to_string()));
}

#[test]
fn list_is_sorted_by_name() {
    assert_eq!(
        SpellingAlphabet::list(&sources()),
        vec![
            pair("de", "Deutsch"),
            pair("es", "Spanish"),
            pair("nato", "NATO phonetic alphabet"),
        ]
    );
}

#[test]
fn list_orders_names_by_code_point() {
    let all = vec![
        source("fr-BE", "# French (Belgium)\n"),
        source("fr", "# French"),
        source("Fr", "# capital"),
        source("être", "# e circumflex\n"),
        source("fr-BE", "# second of its name\n"),
        source("", "# no name\n"),
    ];
    assert_eq!(
        SpellingAlphabet::list(&all),
        vec![
            pair("", "no name"),
            pair("Fr", "capital"),
            pair("fr", "French"),
            pair("fr-BE", "French (Belgium)"),
            pair("fr-BE", "second of its name"),
            pair("être", "e circumflex"),
        ]
    );
}

#[test]
fn list_of_nothing_is_empty() {
    assert_eq!(SpellingAlphabet::list(&Vec::new()), vec![]);
}

#[test]
fn header_is_the_first_line_without_its_marker() {
    assert_eq!(SpellingAlphabet::list(&vec![source("a", "# ")]), vec![pair("a", "")]);
    assert_eq!(SpellingAlphabet::list(&vec![source("a", "# x")]), vec![pair("a", "x")]);
    assert_eq!(SpellingAlphabet::list(&vec![source("a", "#\nabc\n")]), vec![pair("a", "abc")]);
    assert_eq!(SpellingAlphabet::list(&vec![source("a", "# é è\nb c")]), vec![pair("a", "é è")]);
}

#[test]
fn header_needs_two_characters() {
    assert!(source("a", "# x").has_header());
    assert!(source("a", "éé").has_header());
    assert!(!source("a", "é").has_header());
    assert!(!source("a", "").has_header());
}
