use wordle_solver::io::parse_dictionary;

#[test]
fn reads_a_list_of_words() {
    let words = parse_dictionary("[\"crate\", \"would\",\n \"trace\"]").unwrap();
    assert_eq!(words, vec!["crate", "would", "trace"]);
}

#[test]
fn reads_an_empty_list() {
    let words = parse_dictionary("[]").unwrap();
    assert!(words.is_empty());
}

#[test]
fn keeps_repeated_words_and_their_order() {
    let words = parse_dictionary("[\"b\", \"a\", \"b\"]").unwrap();
    assert_eq!(words, vec!["b", "a", "b"]);
}

#[test]
fn reads_escaped_letters() {
    let words = parse_dictionary("[\"caf\\u00e9\"]").unwrap();
    assert_eq!(words, vec!["caf\u{e9}"]);
}

#[test]
fn refuses_text_that_is_not_json() {
    let error = parse_dictionary("[\"crate\", ").unwrap_err();
    assert!(!error.message.is_empty());
    assert!(parse_dictionary("").is_err());
    assert!(parse_dictionary("crate").is_err());
}

#[test]
fn refuses_json_that_is_not_a_list_of_strings() {
    assert!(parse_dictionary("{\"words\": [\"crate\"]}").is_err());
    assert!(parse_dictionary("[1, 2, 3]").is_err());
    assert!(parse_dictionary("\"crate\"").is_err());
    assert!(parse_dictionary("[\"crate\"] [\"would\"]").is_err());
}
