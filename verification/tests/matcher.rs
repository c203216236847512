use wordle_lol::{Directive, Feedback, Match, Matcher};

#[test]
fn match_is_and_is_not() {
    assert!(Match::Is(Directive::Green).matches(Directive::Green));
    assert!(!Match::Is(Directive::Green).matches(Directive::Yellow));
    assert!(!Match::IsNot(Directive::Green).matches(Directive::Green));
    assert!(Match::IsNot(Directive::Green).matches(Directive::Black));
    assert!(Match::IsNot(Directive::Yellow).matches(Directive::Green));
}

#[test]
fn matcher_green_first_and_not_green_elsewhere() {
    let m = Matcher::new(
        Match::Is(Directive::Green),
        Match::IsNot(Directive::Green),
        Match::IsNot(Directive::Green),
        Match::IsNot(Directive::Green),
        Match::IsNot(Directive::Green),
    );
    assert!(m.matches(&Feedback::from_str("gybby").unwrap()));
    assert!(!m.matches(&Feedback::from_str("ggbbb").unwrap()));
    assert!(!m.matches(&Feedback::from_str("ybbbb").unwrap()));
}

#[test]
fn matcher_tests_each_position_with_its_own_test() {
    let m = Matcher::new(
        Match::Is(Directive::Green),
        Match::Is(Directive::Yellow),
        Match::Is(Directive::Black),
        Match::IsNot(Directive::Black),
        Match::IsNot(Directive::Yellow),
    );
    assert!(m.matches(&Feedback::from_str("gybgb").unwrap()));
    assert!(m.matches(&Feedback::from_str("gybyg").unwrap()));
    assert!(!m.matches(&Feedback::from_str("gybby").unwrap()));
    assert!(!m.matches(&Feedback::from_str("ygbgb").unwrap()));
    assert!(!m.matches(&Feedback::from_str("gybgy").unwrap()));
}

#[test]
fn matcher_of_the_assist_strategy() {
    let m = Matcher::new(
        Match::Is(Directive::Green),
        Match::IsNot(Directive::Green),
        Match::IsNot(Directive::Green),
        Match::IsNot(Directive::Green),
        Match::Is(Directive::Green),
    );
    assert!(m.matches(&Feedback::from_str("gbyyg").unwrap()));
    assert!(!m.matches(&Feedback::from_str("ggggg").unwrap()));
    assert!(!m.matches(&Feedback::from_str("gbbbb").unwrap()));
}
