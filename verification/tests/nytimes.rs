use wordle_lol::nytimes::{
    cut_after_last, find_wordle_script_url, first_wordle_script, parse_wordle_url,
    parse_words_from_script, version_from_path, words_from_strings, Data, Date,
};
use wordle_lol::{Word, WordleError};

const SCRIPT: &str = "var a=1;var Ma=[\"cigar\",\"rebut\",\"sissy\",\"humph\"],\
    Oa=[\"aahed\",\"aalii\",\"aargh\"],Ra=\"present\";";

fn data() -> Data {
    match parse_words_from_script(SCRIPT, "abc123".to_string()) {
        Ok(data) => data,
        Err(e) => panic!("the script was refused: {:?}", e),
    }
}

fn texts(words: &[Word]) -> Vec<String> {
    words.iter().map(|w| w.to_string()).collect()
}

fn error_of(script: &str) -> Option<WordleError> {
    parse_words_from_script(script, String::new()).err()
}

#[test]
fn script_gives_solutions_guesses_and_version() {
    let d = data();
    assert_eq!(texts(d.solutions()), vec!["cigar", "rebut", "sissy", "humph"]);
    assert_eq!(texts(d.guesses()), vec!["aahed", "aalii", "aargh"]);
    assert_eq!(d.version(), "abc123");
}

#[test]
fn all_is_solutions_then_guesses() {
    let d = data();
    assert_eq!(
        texts(&d.all()),
        vec!["cigar", "rebut", "sissy", "humph", "aahed", "aalii", "aargh"]
    );
}

#[test]
fn script_arrays_may_stand_in_either_order() {
    let d = parse_words_from_script(
        "x=[\"aahed\",\"aalii\"];y=[\"cigar\",\"rebut\"]",
        "v".to_string(),
    )
    .ok()
    .unwrap();
    assert_eq!(texts(d.solutions()), vec!["cigar", "rebut"]);
    assert_eq!(texts(d.guesses()), vec!["aahed", "aalii"]);
}

#[test]
fn script_array_ends_at_the_next_bracket() {
    let d = parse_words_from_script(
        "[\"cigar\", \"REBUT\" ] ] [\"aahed\",\n\"aalii\"]]",
        "v".to_string(),
    )
    .ok()
    .unwrap();
    assert_eq!(texts(d.solutions()), vec!["cigar", "rebut"]);
    assert_eq!(texts(d.guesses()), vec!["aahed", "aalii"]);
}

#[test]
fn script_reads_json_escapes() {
    let d = parse_words_from_script(
        "[\"cigar\",\"r\\u0065but\"][\"aahed\",\"aalii\"]",
        "v".to_string(),
    )
    .ok()
    .unwrap();
    assert_eq!(texts(d.solutions()), vec!["cigar", "rebut"]);
}

#[test]
fn script_without_an_anchor_is_not_found() {
    assert_eq!(error_of(""), Some(WordleError::NotFound));
    assert_eq!(error_of("[\"aahed\",\"aalii\"]"), Some(WordleError::NotFound));
    assert_eq!(error_of("[\"cigar\",\"rebut\"]"), Some(WordleError::NotFound));
    assert_eq!(error_of("[\"cigar\"][\"aahed\",\"aalii\"]"), Some(WordleError::NotFound));
}

#[test]
fn script_without_a_closing_bracket_is_not_found() {
    assert_eq!(error_of("[\"aahed\",\"aalii\"] [\"cigar\",\"rebut\""), Some(WordleError::NotFound));
    assert_eq!(error_of("[\"cigar\",\"rebut\""), Some(WordleError::NotFound));
}

#[test]
fn script_not_found_comes_before_invalid_input() {
    assert_eq!(error_of("[\"cigar\",oops] and no guesses"), Some(WordleError::NotFound));
}

#[test]
fn script_with_malformed_json_is_invalid_input() {
    assert_eq!(
        error_of("[\"cigar\",rebut][\"aahed\",\"aalii\"]"),
        Some(WordleError::InvalidInput)
    );
    assert_eq!(
        error_of("[\"cigar\",\"rebut\"][\"aahed\",\"aalii\",]"),
        Some(WordleError::InvalidInput)
    );
    assert_eq!(error_of("[\"cigar\",12345][\"aahed\",\"aalii\"]"), Some(WordleError::InvalidInput));
}

#[test]
fn script_with_a_word_of_wrong_length_is_invalid_input() {
    assert_eq!(
        error_of("[\"cigar\",\"rebuts\"][\"aahed\",\"aalii\"]"),
        Some(WordleError::InvalidInput)
    );
    assert_eq!(
        error_of("[\"cigar\",\"rebut\"][\"aahed\",\"aal\"]"),
        Some(WordleError::InvalidInput)
    );
}

#[test]
fn words_from_strings_wants_five_characters_each() {
    let good = vec!["cigar".to_string(), "REBUT".to_string()];
    assert_eq!(texts(&words_from_strings(&good).unwrap()), vec!["cigar", "rebut"]);
    let bad = vec!["cigar".to_string(), "rebuts".to_string()];
    assert_eq!(words_from_strings(&bad), Err(WordleError::InvalidInput));
    assert_eq!(words_from_strings(&Vec::new()), Ok(Vec::new()));
}

#[test]
fn cut_after_last_gives_what_follows() {
    assert_eq!(cut_after_last("/", "/games/wordle.js"), Some("wordle.js"));
    assert_eq!(cut_after_last("/", "/"), Some(""));
    assert_eq!(cut_after_last("/", "a/b/"), Some(""));
    assert_eq!(cut_after_last("/", "wordle.js"), None);
    assert_eq!(cut_after_last("/", ""), None);
}

#[test]
fn cut_after_last_cuts_after_the_first_character_of_the_separator() {
    assert_eq!(cut_after_last("ab", "xabyabz"), Some("bz"));
    assert_eq!(cut_after_last("abc", "ab"), None);
    assert_eq!(cut_after_last("\u{e9}", "caf\u{e9}s"), Some("s"));
}

#[test]
fn version_is_what_stands_between_prefix_and_suffix() {
    assert_eq!(version_from_path("/games/wordle.1b2c3d.js"), Some("1b2c3d".to_string()));
    assert_eq!(version_from_path("/wordle.a.b.js"), Some("a.b".to_string()));
    assert_eq!(version_from_path("/wordle..js"), Some(String::new()));
}

#[test]
fn version_wants_prefix_and_suffix() {
    assert_eq!(version_from_path("/wordle.js"), None);
    assert_eq!(version_from_path("/games/main.1b2c3d.js"), None);
    assert_eq!(version_from_path("/games/wordle.1b2c3d.css"), None);
    assert_eq!(version_from_path("/games/Wordle.1b2c3d.js"), None);
    assert_eq!(version_from_path("/wordle.1b2c3d.js/"), None);
    assert_eq!(version_from_path("wordle.1b2c3d.js"), None);
    assert_eq!(version_from_path(""), None);
}

#[test]
fn wordle_url_gives_its_version() {
    assert_eq!(
        parse_wordle_url("https://www.nytimes.com/games-assets/v2/wordle.9a1b2c3d.js"),
        Some("9a1b2c3d".to_string())
    );
    assert_eq!(
        parse_wordle_url("https://www.nytimes.com/games/wordle.9a1b2c3d.js?x=1#top"),
        Some("9a1b2c3d".to_string())
    );
}

#[test]
fn wordle_url_must_be_absolute_and_name_the_script() {
    assert_eq!(parse_wordle_url("/games-assets/v2/wordle.9a1b2c3d.js"), None);
    assert_eq!(parse_wordle_url("wordle.9a1b2c3d.js"), None);
    assert_eq!(parse_wordle_url("https://www.nytimes.com/games/other.9a1b2c3d.js"), None);
    assert_eq!(parse_wordle_url("https://www.nytimes.com/games/wordle.js"), None);
    assert_eq!(parse_wordle_url(""), None);
}

#[test]
fn first_wordle_script_skips_what_names_no_version() {
    let sources = vec![
        None,
        Some("https://example.com/a.js".to_string()),
        Some("https://example.com/wordle.one.js".to_string()),
        Some("https://example.com/wordle.two.js".to_string()),
    ];
    assert_eq!(
        first_wordle_script(&sources),
        Some(("one".to_string(), "https://example.com/wordle.one.js".to_string()))
    );
    assert_eq!(first_wordle_script(&vec![None, Some("x".to_string())]), None);
    assert_eq!(first_wordle_script(&Vec::new()), None);
}

#[test]
fn page_gives_version_and_url_of_its_script() {
    let page = "<!DOCTYPE html><html><head><title>Wordle</title>\
        <script>var inline = 1;</script>\
        <script src=\"https://www.nytimes.com/games-assets/v2/vendor.abc.js\"></script>\
        <link href=\"https://www.nytimes.com/games-assets/v2/wordle.fake.js\">\
        <script type=\"text/javascript\" src=\"https://www.nytimes.com/games-assets/v2/wordle.1b4655b.js\"></script>\
        </head><body><script src=\"https://www.nytimes.com/games-assets/v2/wordle.later.js\"></script>\
        </body></html>";
    assert_eq!(
        find_wordle_script_url(page),
        Ok((
            "1b4655b".to_string(),
            "https://www.nytimes.com/games-assets/v2/wordle.1b4655b.js".to_string()
        ))
    );
}

#[test]
fn page_without_the_script_is_not_found() {
    assert_eq!(find_wordle_script_url(""), Err(WordleError::NotFound));
    assert_eq!(
        find_wordle_script_url("<html><body><p>no script here</p></body></html>"),
        Err(WordleError::NotFound)
    );
    assert_eq!(
        find_wordle_script_url("<script src=\"/games/wordle.relative.js\"></script>"),
        Err(WordleError::NotFound)
    );
    assert_eq!(
        find_wordle_script_url("<a src=\"https://example.com/wordle.abc.js\"></a>"),
        Err(WordleError::NotFound)
    );
}

#[test]
fn first_day_has_the_first_solution() {
    let d = data();
    let (offset, w) = d.solution_on(Date { year: 2021, month: 6, day: 19 }).unwrap();
    assert_eq!(offset, 0);
    assert_eq!(w.to_string(), "cigar");
}

#[test]
fn solutions_come_round_again() {
    let d = data();
    let (offset, w) = d.solution_on(Date { year: 2021, month: 6, day: 23 }).unwrap();
    assert_eq!(offset, 4);
    assert_eq!(w.to_string(), "cigar");
    let (offset, w) = d.solution_on(Date { year: 2021, month: 6, day: 20 }).unwrap();
    assert_eq!(offset, 1);
    assert_eq!(w.to_string(), "rebut");
}

#[test]
fn days_are_counted_by_the_calendar() {
    let d = data();
    let (offset, w) = d.solution_on(Date { year: 2022, month: 6, day: 19 }).unwrap();
    assert_eq!(offset, 365);
    assert_eq!(w.to_string(), "rebut");
    let (offset, _) = d.solution_on(Date { year: 2024, month: 3, day: 1 }).unwrap();
    assert_eq!(offset, 986);
    let (offset, _) = d.solution_on(Date { year: 2021, month: 6, day: 18 }).unwrap();
    assert_eq!(offset, -1);
}

#[test]
fn no_solution_on_a_day_that_is_none() {
    let d = data();
    assert_eq!(d.solution_on(Date { year: 2023, month: 2, day: 29 }), None);
    assert_eq!(d.solution_on(Date { year: 2023, month: 13, day: 1 }), None);
    assert_eq!(d.solution_on(Date { year: 2023, month: 0, day: 1 }), None);
    assert_eq!(d.solution_on(Date { year: 2023, month: 4, day: 31 }), None);
    assert!(d.solution_on(Date { year: 2024, month: 2, day: 29 }).is_some());
}

#[test]
fn solution_at_goes_by_the_offset() {
    let d = data();
    assert_eq!(d.solution_at(0).1.to_string(), "cigar");
    assert_eq!(d.solution_at(3).1.to_string(), "humph");
    assert_eq!(d.solution_at(4).1.to_string(), "cigar");
    assert_eq!(d.solution_at(4), (4, Word::from_str("cigar").unwrap()));
    assert_eq!(d.solution_at(1_000_001).1.to_string(), "rebut");
    for offset in 0..20 {
        assert_eq!(d.solution_at(offset).1, d.solution_at(offset + 4).1);
    }
}

#[test]
fn solution_at_before_the_first_day_wraps_as_unsigned() {
    let d = data();
    assert_eq!(d.solution_at(-1), (-1, Word::from_str("humph").unwrap()));
    assert_eq!(d.solution_at(-4).1.to_string(), "cigar");
    assert_eq!(d.solution_at(i64::MIN).1.to_string(), "cigar");
}
