use wordle_lol::{Char, Word, WordleError, WORD_SIZE};

#[test]
fn word_size_is_five() {
    assert_eq!(WORD_SIZE, 5);
}

#[test]
fn word_round_trip_lowercase() {
    for s in ["cigar", "aahed", "zzzzz", "abcde"] {
        let w = Word::from_str(s).unwrap();
        assert_eq!(w.to_string(), s);
    }
}

#[test]
fn word_round_trip_normalizes_case() {
    assert_eq!(Word::from_str("CiGaR").unwrap().to_string(), "cigar");
    assert_eq!(Word::from_str("CIGAR").unwrap(), Word::from_str("cigar").unwrap());
}

#[test]
fn word_round_trip_keeps_one_byte_characters() {
    assert_eq!(Word::from_str("h\u{e9}llo").unwrap().to_string(), "h\u{e9}llo");
    assert_eq!(Word::from_str("a-b'c").unwrap().to_string(), "a-b'c");
}

#[test]
fn word_of_wrong_length_is_invalid_input() {
    for s in ["", "a", "abcd", "abcdef", "abcdefghij"] {
        assert_eq!(Word::from_str(s), Err(WordleError::InvalidInput));
    }
}

#[test]
fn word_length_counts_characters() {
    assert!(Word::from_str("\u{e9}\u{e9}\u{e9}\u{e9}\u{e9}").is_ok());
    assert_eq!(Word::from_str("\u{e9}abc"), Err(WordleError::InvalidInput));
}

#[test]
fn char_from_char_normalizes_case() {
    assert_eq!(Char::from_char('A').char(), 'a');
    assert_eq!(Char::from_char('Z').char(), 'z');
    assert_eq!(Char::from_char('q').char(), 'q');
    assert_eq!(Char::from_char('A'), Char::from_char('a'));
    assert_eq!(Char::from_char('@').char(), '@');
    assert_eq!(Char::from_char('[').char(), '[');
}

#[test]
fn char_keeps_the_low_byte() {
    assert_eq!(Char::from_char('\u{e9}').char(), '\u{e9}');
    assert_eq!(Char::from_char('\u{141}').char(), 'A');
    assert_eq!(Char::from_char('\u{3b1}').char(), '\u{b1}');
}

#[test]
fn char_default_is_a() {
    assert_eq!(Char::default().char(), 'a');
    assert_eq!(Char::default(), Char::from_char('a'));
}

#[test]
fn char_order_follows_the_letters() {
    assert!(Char::from_char('a') < Char::from_char('b'));
    assert!(Char::from_char('B') < Char::from_char('c'));
}

#[test]
fn word_chars_are_its_letters() {
    let w = Word::from_str("Cigar").unwrap();
    let letters: Vec<char> = w.chars().iter().map(|c| c.char()).collect();
    assert_eq!(letters, vec!['c', 'i', 'g', 'a', 'r']);
    assert_eq!(w.chars().len(), 5);
}

#[test]
fn word_iter_goes_through_its_letters() {
    let w = Word::from_str("rebut").unwrap();
    let text: String = w.iter().map(|c| c.char()).collect();
    assert_eq!(text, "rebut");
    assert_eq!(w.iter().count(), 5);
}

#[test]
fn word_index_gives_each_position() {
    let w = Word::from_str("sissy").unwrap();
    assert_eq!(w[0].char(), 's');
    assert_eq!(w[1].char(), 'i');
    assert_eq!(w[4].char(), 'y');
}

#[test]
fn word_contains_its_letters_only() {
    let w = Word::from_str("humph").unwrap();
    assert!(w.contains(Char::from_char('h')));
    assert!(w.contains(Char::from_char('P')));
    assert!(!w.contains(Char::from_char('a')));
}

#[test]
fn word_order_is_by_letters() {
    let a = Word::from_str("abcde").unwrap();
    let b = Word::from_str("abcdf").unwrap();
    let c = Word::from_str("baaaa").unwrap();
    assert!(a < b);
    assert!(b < c);
    assert_eq!(a, Word::from_str("ABCDE").unwrap());
    let mut list = vec![c, a, b, a];
    list.sort();
    list.dedup();
    assert_eq!(list, vec![a, b, c]);
}

#[test]
fn word_partial_order_agrees_with_the_total_order() {
    let list: Vec<Word> = ["abcde", "abcdf", "baaaa", "aaaaa", "zzzzz", "abcde", "h\u{e9}llo"]
        .iter()
        .map(|s| Word::from_str(s).unwrap())
        .collect();
    for a in list.iter() {
        for b in list.iter() {
            assert_eq!(a.partial_cmp(b), Some(a.cmp(b)));
            assert_eq!(a == b, a.to_string() == b.to_string());
            assert_eq!(a < b, a.to_string() < b.to_string());
        }
    }
}

#[test]
fn char_partial_order_agrees_with_the_total_order() {
    for a in ['a', 'b', 'z', 'A', '-'] {
        for b in ['a', 'b', 'z', 'Q', '~'] {
            let (x, y) = (Char::from_char(a), Char::from_char(b));
            assert_eq!(x.partial_cmp(&y), Some(x.cmp(&y)));
            assert_eq!(x == y, x.char() == y.char());
            assert_eq!(x < y, x.char() < y.char());
        }
    }
}

#[test]
fn errors_describe_themselves() {
    assert!(WordleError::InvalidInput.description().contains("malformed"));
    assert!(WordleError::NotFound.description().contains("not found"));
    assert_ne!(WordleError::InvalidInput, WordleError::NotFound);
}
