use wordle_lol::{Directive, Feedback, Word, WordleError};

fn score(guess: &str, solution: &str) -> Feedback {
    Feedback::from_word(&Word::from_str(guess).unwrap(), &Word::from_str(solution).unwrap())
}

fn directives(f: &Feedback) -> Vec<Directive> {
    f.iter().map(|d| *d).collect()
}

#[test]
fn feedback_claims_from_the_left() {
    let f = score("aabbc", "ababc");
    assert_eq!(
        directives(&f),
        vec![
            Directive::Green,
            Directive::Yellow,
            Directive::Yellow,
            Directive::Green,
            Directive::Green
        ]
    );
    assert_eq!(f.to_code(), "gyygg");
}

#[test]
fn feedback_caps_repeated_letters() {
    let f = score("aaaaa", "aabbb");
    assert_eq!(
        directives(&f),
        vec![
            Directive::Green,
            Directive::Green,
            Directive::Black,
            Directive::Black,
            Directive::Black
        ]
    );
}

#[test]
fn feedback_yellows_do_not_exceed_what_is_left() {
    assert_eq!(score("eerie", "where").to_code(), "ybybg");
    assert_eq!(score("sassy", "glass").to_code(), "yybgb");
    assert_eq!(score("abbey", "babes").to_code(), "yyggb");
    assert_eq!(score("llama", "small").to_code(), "yygyb");
}

#[test]
fn feedback_without_common_letters_is_black() {
    assert_eq!(score("vwxyz", "abcde").to_code(), "bbbbb");
}

#[test]
fn feedback_of_a_permutation_is_yellow() {
    assert_eq!(score("eabcd", "abcde").to_code(), "yyyyy");
}

#[test]
fn feedback_of_the_solution_is_all_green() {
    for s in ["cigar", "aaaaa", "sissy", "abcde"] {
        let f = score(s, s);
        assert!(f.is_all_green());
        assert_eq!(f.to_code(), "ggggg");
    }
}

#[test]
fn feedback_is_all_green_only_for_the_solution() {
    assert!(!score("cigar", "cigas").is_all_green());
    assert!(!score("aabbc", "ababc").is_all_green());
    assert!(!score("eabcd", "abcde").is_all_green());
    assert!(score("CIGAR", "cigar").is_all_green());
}

#[test]
fn feedback_parses_codes_in_either_case() {
    let f = Feedback::from_str("gYbBG").unwrap();
    assert_eq!(
        directives(&f),
        vec![
            Directive::Green,
            Directive::Yellow,
            Directive::Black,
            Directive::Black,
            Directive::Green
        ]
    );
    assert_eq!(f.to_code(), "gybbg");
}

#[test]
fn feedback_code_round_trip() {
    for code in ["ggggg", "bbbbb", "gybyg", "yyyyy", "bgybg"] {
        assert_eq!(Feedback::from_str(code).unwrap().to_code(), code);
    }
}

#[test]
fn feedback_of_wrong_length_is_invalid_input() {
    for code in ["", "g", "gybb", "gybbgg"] {
        assert_eq!(Feedback::from_str(code), Err(WordleError::InvalidInput));
    }
}

#[test]
fn feedback_with_another_character_is_invalid_input() {
    for code in ["gybbx", "12345", "gyb g", "\u{1F7E9}ybbg"] {
        assert_eq!(Feedback::from_str(code), Err(WordleError::InvalidInput));
    }
}

#[test]
fn feedback_renders_tiles() {
    let f = Feedback::from_str("gybbg").unwrap();
    assert_eq!(f.to_string(), "\u{1F7E9}\u{1F7E8}\u{2B1B}\u{2B1B}\u{1F7E9}");
    assert_eq!(f.to_string().chars().count(), 5);
}

#[test]
fn directive_tiles_and_codes() {
    assert_eq!(Directive::Green.to_char(), '\u{1F7E9}');
    assert_eq!(Directive::Yellow.to_char(), '\u{1F7E8}');
    assert_eq!(Directive::Black.to_char(), '\u{2B1B}');
    assert_eq!(Directive::Green.to_code(), 'g');
    assert_eq!(Directive::Yellow.to_code(), 'y');
    assert_eq!(Directive::Black.to_code(), 'b');
    assert_eq!(Directive::from_code('G'), Some(Directive::Green));
    assert_eq!(Directive::from_code('y'), Some(Directive::Yellow));
    assert_eq!(Directive::from_code('B'), Some(Directive::Black));
    assert_eq!(Directive::from_code('x'), None);
}

#[test]
fn directive_order() {
    assert!(Directive::Green < Directive::Yellow);
    assert!(Directive::Yellow < Directive::Black);
}

#[test]
fn feedback_index_gives_each_position() {
    let f = Feedback::from_str("gybbg").unwrap();
    assert_eq!(f[0], Directive::Green);
    assert_eq!(f[1], Directive::Yellow);
    assert_eq!(f[2], Directive::Black);
    assert_eq!(f[4], Directive::Green);
}

#[test]
fn feedback_order_is_by_directives() {
    let a = Feedback::from_str("ggggg").unwrap();
    let b = Feedback::from_str("ggggy").unwrap();
    let c = Feedback::from_str("bgggg").unwrap();
    assert!(a < b);
    assert!(b < c);
    assert_eq!(a, score("cigar", "cigar"));
}

#[test]
fn feedback_partial_order_agrees_with_the_total_order() {
    let list: Vec<Feedback> = ["ggggg", "ggggy", "bgggg", "ygbyg", "bbbbb", "ggggg"]
        .iter()
        .map(|s| Feedback::from_str(s).unwrap())
        .collect();
    for a in list.iter() {
        for b in list.iter() {
            assert_eq!(a.partial_cmp(b), Some(a.cmp(b)));
            assert_eq!(a == b, a.to_code() == b.to_code());
        }
    }
    for a in [Directive::Green, Directive::Yellow, Directive::Black] {
        for b in [Directive::Green, Directive::Yellow, Directive::Black] {
            assert_eq!(a.partial_cmp(&b), Some(a.cmp(&b)));
        }
    }
}
