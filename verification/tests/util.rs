use wordle_solver::util::{code_of, letter_codes, letters, unique_element_counts};

#[test]
fn counts_each_distinct_element() {
    let counts = unique_element_counts(&[1u32, 2, 1, 3, 1]);
    assert_eq!(counts.len(), 3);
    assert_eq!(counts.get(&1), Some(&3));
    assert_eq!(counts.get(&2), Some(&1));
    assert_eq!(counts.get(&3), Some(&1));
    assert_eq!(counts.get(&4), None);
}

#[test]
fn counts_nothing_in_an_empty_text() {
    let counts = unique_element_counts::<u32>(&[]);
    assert!(counts.is_empty());
}

#[test]
fn counts_letters_by_their_code_points() {
    let codes = letter_codes(&letters("hello"));
    let counts = unique_element_counts(&codes);
    assert_eq!(counts.len(), 4);
    assert_eq!(counts.get(&code_of('l')), Some(&2));
    assert_eq!(counts.get(&code_of('h')), Some(&1));
    assert_eq!(counts.get(&code_of('z')), None);
}

#[test]
fn letters_are_the_chars_of_the_word() {
    assert_eq!(letters("h\u{e9}llo"), vec!['h', '\u{e9}', 'l', 'l', 'o']);
    assert_eq!(letters(""), Vec::<char>::new());
    assert_eq!(letter_codes(&['a', 'b']), vec![97, 98]);
    assert_eq!(code_of('\u{1F7E9}'), 0x1F7E9);
}
