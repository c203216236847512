//! What the puzzle's page holds: the script that it names, the word lists
//! of that script, and the solution of a day.

use crate::error::WordleError;
use crate::json::{json_strings, plain, read_json_strings};
use crate::text::chars_of;
use crate::word::{letter_codes, lettered, Word};
use chrono::NaiveDate;
use scraper::{Html, Selector};
use url::Url;
use vstd::prelude::*;

verus! {

/// A day of the calendar, as year, month and day of the month.
#[derive(Clone, Copy, PartialEq, Eq, Debug, Structural)]
pub struct Date {
    pub year: i32,
    pub month: u32,
    pub day: u32,
}

/// The day on which the puzzle was first published: 19 June 2021.
pub open spec fn first_day() -> Date {
    Date { year: 2021, month: 6, day: 19 }
}

/// The number of days from one calendar day to another, as chrono counts
/// them; `None` where one of the two is no day of chrono's calendar.
pub uninterp spec fn days_apart(
    from_year: int,
    from_month: int,
    from_day: int,
    to_year: int,
    to_month: int,
    to_day: int,
) -> Option<i64>;

/// The number of days from `from` to `to`.
pub open spec fn days_from(from: Date, to: Date) -> Option<i64> {
    days_apart(
        from.year as int,
        from.month as int,
        from.day as int,
        to.year as int,
        to.month as int,
        to.day as int,
    )
}

/// chrono's `NaiveDate::from_ymd_opt` makes each date, or none where the
/// numbers name no day of its calendar; `signed_duration_since` and
/// `num_days` then give the whole days from the first date to the second.
/// The contract names that number, and says that no days lie between a day
/// and itself.
#[verifier::external_body]
fn days_between(from: &Date, to: &Date) -> (r: Option<i64>)
    ensures
        r == days_apart(
            from.year as int,
            from.month as int,
            from.day as int,
            to.year as int,
            to.month as int,
            to.day as int,
        ),
        *from == *to && r is Some ==> r == Some(0i64),
{
    let start = NaiveDate::from_ymd_opt(from.year, from.month, from.day)?;
    let end = NaiveDate::from_ymd_opt(to.year, to.month, to.day)?;
    Some(end.signed_duration_since(start).num_days())
}

/// The place in a list of `len` solutions that the day at `offset` days
/// from the first day takes: the offset, as an unsigned number of 64 bits,
/// modulo the length. So the list is gone through again and again.
pub open spec fn place_of(offset: int, len: int) -> int
    recommends
        len > 0,
{
    (if offset >= 0 {
        offset
    } else {
        offset + 0x1_0000_0000_0000_0000
    }) % len
}

/// What was read from the puzzle's page: the version of its script, the
/// solutions in the order of their days, and the further words that are
/// accepted as guesses.
pub struct Data {
    version: String,
    solutions: Vec<Word>,
    guesses: Vec<Word>,
}

/// `Data` as plain values.
pub ghost struct DataView {
    pub version: Seq<char>,
    pub solutions: Seq<Seq<u8>>,
    pub guesses: Seq<Seq<u8>>,
}

impl View for Data {
    type V = DataView;

    closed spec fn view(&self) -> DataView {
        DataView {
            version: self.version@,
            solutions: lettered(self.solutions@),
            guesses: lettered(self.guesses@),
        }
    }
}

impl Data {
    /// The solutions, in the order of their days.
    pub fn solutions(&self) -> (r: &[Word])
        ensures
            lettered(r@) == self@.solutions,
    {
        self.solutions.as_slice()
    }

    /// The further words that are accepted as guesses.
    pub fn guesses(&self) -> (r: &[Word])
        ensures
            lettered(r@) == self@.guesses,
    {
        self.guesses.as_slice()
    }

    /// The version of the script that the words were read from.
    pub fn version(&self) -> (r: &str)
        ensures
            r@ == self@.version,
    {
        self.version.as_str()
    }

    /// Every word: the solutions, then the guesses.
    pub fn all(&self) -> (r: Vec<Word>)
        ensures
            lettered(r@) == self@.solutions + self@.guesses,
    {
        let mut out: Vec<Word> = Vec::new();
        let mut i: usize = 0;
        while i < self.solutions.len()
            invariant
                i <= self.solutions@.len(),
                out@ == self.solutions@.take(i as int),
            decreases self.solutions@.len() - i,
        {
            out.push(self.solutions[i]);
            assert(self.solutions@.take(i + 1) =~= self.solutions@.take(i as int).push(
                self.solutions@[i as int],
            ));
            i += 1;
        }
        assert(self.solutions@.take(self.solutions@.len() as int) =~= self.solutions@);
        let mut j: usize = 0;
        while j < self.guesses.len()
            invariant
                j <= self.guesses@.len(),
                out@ == self.solutions@ + self.guesses@.take(j as int),
            decreases self.guesses@.len() - j,
        {
            out.push(self.guesses[j]);
            assert(self.solutions@ + self.guesses@.take(j + 1) =~= (self.solutions@
                + self.guesses@.take(j as int)).push(self.guesses@[j as int]));
            j += 1;
        }
        assert(self.guesses@.take(self.guesses@.len() as int) =~= self.guesses@);
        assert(lettered(out@) =~= self@.solutions + self@.guesses);
        out
    }

    /// The solution of the day that lies `offset` days after the first day,
    /// with that offset. There must be a solution.
    pub fn solution_at(&self, offset: i64) -> (r: (i64, Word))
        requires
            self@.solutions.len() > 0,
        ensures
            r.0 == offset,
            r.1@ == self@.solutions[place_of(offset as int, self@.solutions.len() as int)],
    {
        let len: u64 = self.solutions.len() as u64;
        let turned: u64 = if offset >= 0 {
            offset as u64
        } else {
            u64::MAX - ((-(offset + 1)) as u64)
        };
        let place: u64 = turned % len;
        (offset, self.solutions[place as usize])
    }

    /// The solution of a day, with the number of days from the first day to
    /// it; `None` where `day` is no day of the calendar. There must be a
    /// solution.
    pub fn solution_on(&self, day: Date) -> (r: Option<(i64, Word)>)
        requires
            self@.solutions.len() > 0,
        ensures
            match days_from(first_day(), day) {
                Some(offset) => r matches Some(found) && found.0 == offset && found.1@
                    == self@.solutions[place_of(offset as int, self@.solutions.len() as int)],
                None => r is None,
            },
            day == first_day() ==> (r matches Some(found) ==> found.0 == 0 && found.1@
                == self@.solutions[0]),
    {
        let start = Date { year: 2021, month: 6, day: 19 };
        proof {
            lemma_solutions_cycle(0, self@.solutions.len() as int);
        }
        match days_between(&start, &day) {
            Some(offset) => Some(self.solution_at(offset)),
            None => None,
        }
    }
}

/// Going on by as many days as there are solutions gives the same solution
/// again, from the first day on; and the first day has the first solution.
pub proof fn lemma_solutions_cycle(offset: int, len: int)
    requires
        0 <= offset,
        0 < len,
    ensures
        0 <= place_of(offset, len) < len,
        place_of(offset + len, len) == place_of(offset, len),
        place_of(0, len) == 0,
        place_of(len, len) == 0,
{
    vstd::arithmetic::div_mod::lemma_mod_adds(offset, len, len);
    vstd::arithmetic::div_mod::lemma_mod_self_0(len);
    vstd::arithmetic::div_mod::lemma_mod_bound(offset, len);
    vstd::arithmetic::div_mod::lemma_small_mod(0, len as nat);
}

/// Whether `pattern` stands in `text` at position `i`.
pub open spec fn matches_at(text: Seq<char>, pattern: Seq<char>, i: int) -> bool {
    &&& 0 <= i
    &&& i + pattern.len() <= text.len()
    &&& text.subrange(i, i + pattern.len()) == pattern
}

/// The first position at or after `from` at which `pattern` stands in
/// `text`.
pub open spec fn first_match(text: Seq<char>, pattern: Seq<char>, from: int) -> Option<int>
    decreases text.len() - from + 1,
{
    if from < 0 || from + pattern.len() > text.len() {
        None
    } else if matches_at(text, pattern, from) {
        Some(from)
    } else {
        first_match(text, pattern, from + 1)
    }
}

/// The last position at or before `upto` at which `pattern` stands in
/// `text`.
pub open spec fn last_match(text: Seq<char>, pattern: Seq<char>, upto: int) -> Option<int>
    decreases upto + 1,
{
    if upto < 0 {
        None
    } else if matches_at(text, pattern, upto) {
        Some(upto)
    } else {
        last_match(text, pattern, upto - 1)
    }
}

fn stands_at(text: &[char], pattern: &[char], i: usize) -> (r: bool)
    requires
        i + pattern@.len() <= text@.len(),
    ensures
        r == matches_at(text@, pattern@, i as int),
{
    let n: usize = text.len();
    let mut k: usize = 0;
    while k < pattern.len()
        invariant
            k <= pattern@.len(),
            i + pattern@.len() <= text@.len(),
            n == text@.len(),
            forall|x: int| 0 <= x < k ==> text@[i + x] == pattern@[x],
        decreases pattern@.len() - k,
    {
        if text[i + k] != pattern[k] {
            assert(text@.subrange(i as int, i + pattern@.len())[k as int] != pattern@[k as int]);
            return false;
        }
        k += 1;
    }
    assert(text@.subrange(i as int, i + pattern@.len()) =~= pattern@);
    true
}

fn find_from(text: &[char], pattern: &[char], from: usize) -> (r: Option<usize>)
    ensures
        match r {
            Some(i) => first_match(text@, pattern@, from as int) == Some(i as int) && from <= i
                && i + pattern@.len() <= text@.len(),
            None => first_match(text@, pattern@, from as int) is None,
        },
{
    if pattern.len() > text.len() {
        return None;
    }
    let last = text.len() - pattern.len();
    let mut i: usize = from;
    while i <= last
        invariant
            from <= i,
            last == text@.len() - pattern@.len(),
            first_match(text@, pattern@, from as int) == first_match(text@, pattern@, i as int),
        decreases last - i,
    {
        if stands_at(text, pattern, i) {
            return Some(i);
        }
        if i == last {
            assert(first_match(text@, pattern@, i + 1) is None);
            return None;
        }
        i += 1;
    }
    None
}

/// What follows the first character of the last occurrence of `sep` in `s`;
/// `None` where `sep` does not occur. `sep` must not be empty.
pub fn cut_after_last<'a>(sep: &str, s: &'a str) -> (r: Option<&'a str>)
    requires
        sep@.len() > 0,
    ensures
        match last_match(s@, sep@, s@.len() - sep@.len()) {
            Some(i) => r matches Some(rest) && rest@ == s@.subrange(i + 1, s@.len() as int),
            None => r is None,
        },
{
    let text = chars_of(s);
    let pattern = chars_of(sep);
    if pattern.len() > text.len() {
        return None;
    }
    let mut i: usize = text.len() - pattern.len();
    loop
        invariant
            text@ == s@,
            pattern@ == sep@,
            pattern@.len() > 0,
            i + pattern@.len() <= text@.len(),
            text@.len() <= usize::MAX,
            last_match(s@, sep@, s@.len() - sep@.len()) == last_match(s@, sep@, i as int),
        decreases i,
    {
        if stands_at(text.as_slice(), pattern.as_slice(), i) {
            return Some(s.substring_char(i + 1, text.len()));
        }
        if i == 0 {
            assert(last_match(s@, sep@, -1) is None);
            return None;
        }
        i -= 1;
    }
}

/// The version that the path of a script names: where the part after the
/// last slash is `wordle.`, a version and `.js`, that version.
pub open spec fn version_in(path: Seq<char>) -> Option<Seq<char>> {
    match last_match(path, "/"@, path.len() - "/"@.len()) {
        Some(i) => {
            let name = path.subrange(i + 1, path.len() as int);
            if name.len() >= "wordle."@.len() + ".js"@.len() && matches_at(name, "wordle."@, 0)
                && matches_at(name, ".js"@, name.len() - ".js"@.len()) {
                Some(name.subrange("wordle."@.len() as int, name.len() - ".js"@.len()))
            } else {
                None
            }
        },
        None => None,
    }
}

/// The version that the path of a script names, if it names one.
pub fn version_from_path(path: &str) -> (r: Option<String>)
    ensures
        match version_in(path@) {
            Some(version) => r matches Some(found) && found@ == version,
            None => r is None,
        },
{
    proof {
        reveal_strlit("/");
    }
    let name = match cut_after_last("/", path) {
        Some(name) => name,
        None => {
            return None;
        },
    };
    let text = chars_of(name);
    let prefix = chars_of("wordle.");
    let suffix = chars_of(".js");
    if prefix.len() > text.len() || suffix.len() > text.len() - prefix.len() {
        return None;
    }
    if stands_at(text.as_slice(), prefix.as_slice(), 0) && stands_at(
        text.as_slice(),
        suffix.as_slice(),
        text.len() - suffix.len(),
    ) {
        Some(name.substring_char(prefix.len(), text.len() - suffix.len()).to_owned())
    } else {
        None
    }
}

/// The path of the URL written in `text`, as the url crate gives it; `None`
/// where the crate does not take `text` for an absolute URL.
pub uninterp spec fn url_path_of(text: Seq<char>) -> Option<Seq<char>>;

/// `Url::parse` of the url crate reads an absolute URL, and `Url::path`
/// gives its path. The contract names the path, and says that there is none
/// where the text is refused.
#[verifier::external_body]
fn url_path(text: &str) -> (r: Option<String>)
    ensures
        match r {
            Some(path) => url_path_of(text@) == Some(path@),
            None => url_path_of(text@) is None,
        },
{
    match Url::parse(text) {
        Ok(url) => Some(url.path().to_owned()),
        Err(_) => None,
    }
}

/// The version that the URL of a script names.
pub open spec fn version_of(url: Seq<char>) -> Option<Seq<char>> {
    match url_path_of(url) {
        Some(path) => version_in(path),
        None => None,
    }
}

/// The version that the URL of a script names: `None` where `s` is no
/// absolute URL, or where its path does not end in `wordle.`, a version and
/// `.js`.
pub fn parse_wordle_url(s: &str) -> (r: Option<String>)
    ensures
        match version_of(s@) {
            Some(version) => r matches Some(found) && found@ == version,
            None => r is None,
        },
{
    match url_path(s) {
        Some(path) => version_from_path(path.as_str()),
        None => None,
    }
}

/// A list of texts, some of them absent, as plain values.
pub open spec fn texts(list: Seq<Option<String>>) -> Seq<Option<Seq<char>>> {
    Seq::new(
        list.len(),
        |i: int|
            match list[i] {
                Some(text) => Some(text@),
                None => None,
            },
    )
}

/// For each element of the HTML document `html` that the CSS selector
/// `selector` matches, in the order in which scraper finds them, the value
/// of its attribute `attribute`, if it has that attribute; `None` where
/// scraper refuses the selector.
pub uninterp spec fn attribute_values_of(
    html: Seq<char>,
    selector: Seq<char>,
    attribute: Seq<char>,
) -> Option<Seq<Option<Seq<char>>>>;

/// `Selector::parse` of scraper reads the selector, `Html::parse_document`
/// the document; `Html::select` then goes through the elements that the
/// selector matches, and `Element::attr` gives the value of an attribute.
/// The contract names the list of those values, and says that there is none
/// where the selector is refused.
#[verifier::external_body]
fn attribute_values(html: &str, selector: &str, attribute: &str) -> (r: Option<
    Vec<Option<String>>,
>)
    ensures
        match r {
            Some(list) => attribute_values_of(html@, selector@, attribute@) == Some(texts(list@)),
            None => attribute_values_of(html@, selector@, attribute@) is None,
        },
{
    match Selector::parse(selector) {
        Ok(parsed) => {
            let document = Html::parse_document(html);
            Some(
                document.select(&parsed).map(
                    |element| element.value().attr(attribute).map(|value| value.to_owned()),
                ).collect(),
            )
        },
        Err(_) => None,
    }
}

/// The first source at or after `from` that names a version, with that
/// version: the version first, then the source.
pub open spec fn first_versioned(sources: Seq<Option<Seq<char>>>, from: int) -> Option<
    (Seq<char>, Seq<char>),
>
    decreases sources.len() - from + 1,
{
    if from < 0 || from >= sources.len() {
        None
    } else {
        match sources[from] {
            Some(source) => match version_of(source) {
                Some(version) => Some((version, source)),
                None => first_versioned(sources, from + 1),
            },
            None => first_versioned(sources, from + 1),
        }
    }
}

/// The first of the sources that names a version, with that version: the
/// version first, then the source as it stands.
pub fn first_wordle_script(sources: &Vec<Option<String>>) -> (r: Option<(String, String)>)
    ensures
        match first_versioned(texts(sources@), 0) {
            Some(found) => r matches Some(pair) && pair.0@ == found.0 && pair.1@ == found.1,
            None => r is None,
        },
{
    let mut i: usize = 0;
    while i < sources.len()
        invariant
            i <= sources@.len(),
            first_versioned(texts(sources@), 0) == first_versioned(texts(sources@), i as int),
        decreases sources@.len() - i,
    {
        assert(texts(sources@)[i as int] == match sources@[i as int] {
            Some(text) => Some(text@),
            None => None,
        });
        match &sources[i] {
            Some(source) => {
                match parse_wordle_url(source.as_str()) {
                    Some(version) => {
                        return Some((version, source.clone()));
                    },
                    None => {},
                }
            },
            None => {},
        }
        i += 1;
    }
    None
}

/// The script of the puzzle that a page names: of the `src` attributes of
/// its `script` elements, the first that names a version.
pub open spec fn wordle_script_in(page: Seq<char>) -> Option<(Seq<char>, Seq<char>)> {
    match attribute_values_of(page, "script"@, "src"@) {
        Some(sources) => first_versioned(sources, 0),
        None => None,
    }
}

/// The version and the URL of the puzzle's script, from the HTML of the
/// puzzle's page: of the `script` elements with a `src` attribute, the
/// first whose URL names a version. `NotFound` where there is none.
pub fn find_wordle_script_url(s: &str) -> (r: Result<(String, String), WordleError>)
    ensures
        match wordle_script_in(s@) {
            Some(found) => r matches Ok(pair) && pair.0@ == found.0 && pair.1@ == found.1,
            None => r matches Err(e) && e == WordleError::NotFound,
        },
{
    match attribute_values(s, "script", "src") {
        Some(sources) => match first_wordle_script(&sources) {
            Some(pair) => Ok(pair),
            None => Err(WordleError::NotFound),
        },
        None => Err(WordleError::NotFound),
    }
}

/// The words written in the strings: `None` unless each has five
/// characters.
pub open spec fn words_of(strings: Seq<Seq<char>>) -> Option<Seq<Seq<u8>>> {
    if forall|i: int| 0 <= i < strings.len() ==> (#[trigger] strings[i]).len() == 5 {
        Some(Seq::new(strings.len(), |i: int| letter_codes(strings[i])))
    } else {
        None
    }
}

/// The words written in the strings, in order: `InvalidInput` unless each
/// string has five characters.
pub fn words_from_strings(strings: &Vec<String>) -> (r: Result<Vec<Word>, WordleError>)
    ensures
        match words_of(plain(strings@)) {
            Some(words) => r matches Ok(list) && lettered(list@) == words,
            None => r matches Err(e) && e == WordleError::InvalidInput,
        },
{
    let mut words: Vec<Word> = Vec::new();
    let mut i: usize = 0;
    while i < strings.len()
        invariant
            i <= strings@.len(),
            words@.len() == i,
            forall|j: int| 0 <= j < i ==> (#[trigger] plain(strings@)[j]).len() == 5,
            forall|j: int| 0 <= j < i ==> (#[trigger] words@[j])@ == letter_codes(strings@[j]@),
        decreases strings@.len() - i,
    {
        assert(plain(strings@)[i as int] == strings@[i as int]@);
        match Word::from_str(strings[i].as_str()) {
            Ok(word) => {
                words.push(word);
            },
            Err(_) => {
                return Err(WordleError::InvalidInput);
            },
        }
        i += 1;
    }
    assert(lettered(words@) =~= Seq::new(
        plain(strings@).len(),
        |i: int| letter_codes(plain(strings@)[i]),
    ));
    Ok(words)
}

/// The text of the array that opens with `anchor`: from the first
/// occurrence of `anchor` in the script to the next closing bracket, both
/// included.
pub open spec fn array_text(script: Seq<char>, anchor: Seq<char>) -> Option<Seq<char>> {
    match first_match(script, anchor, 0) {
        Some(open) => match first_match(script, "]"@, open) {
            Some(close) => Some(script.subrange(open, close + 1)),
            None => None,
        },
        None => None,
    }
}

/// The words of the array written in `text`.
pub open spec fn word_list(text: Seq<char>) -> Option<Seq<Seq<u8>>> {
    match json_strings(text) {
        Some(strings) => words_of(strings),
        None => None,
    }
}

/// The solutions and the guesses that a script holds: `NotFound` where one
/// of the two arrays is not there, `InvalidInput` where one of them is not
/// a JSON array of words of five letters.
pub open spec fn script_words(script: Seq<char>) -> Result<(Seq<Seq<u8>>, Seq<Seq<u8>>), WordleError> {
    match (array_text(script, "[\"cigar\","@), array_text(script, "[\"aahed\","@)) {
        (Some(solutions), Some(guesses)) => match (word_list(solutions), word_list(guesses)) {
            (Some(s), Some(g)) => Ok((s, g)),
            _ => Err(WordleError::InvalidInput),
        },
        _ => Err(WordleError::NotFound),
    }
}

fn array_in<'a>(script: &'a str, text: &[char], anchor: &str) -> (r: Option<&'a str>)
    requires
        text@ == script@,
    ensures
        match array_text(script@, anchor@) {
            Some(found) => r matches Some(slice) && slice@ == found,
            None => r is None,
        },
{
    proof {
        reveal_strlit("]");
    }
    let pattern = chars_of(anchor);
    let bracket = chars_of("]");
    let n: usize = text.len();
    match find_from(text, pattern.as_slice(), 0) {
        Some(open) => match find_from(text, bracket.as_slice(), open) {
            Some(close) => Some(script.substring_char(open, close + 1)),
            None => None,
        },
        None => None,
    }
}

/// The data that the puzzle's script holds, under the given version. The
/// solutions are the array that opens with `["cigar",`, the guesses the one
/// that opens with `["aahed",`; each ends at the next closing bracket.
/// `NotFound` where one of the two is not there, `InvalidInput` where one
/// of them is not a JSON array of words of five letters.
pub fn parse_words_from_script(s: &str, version: String) -> (r: Result<Data, WordleError>)
    ensures
        match script_words(s@) {
            Ok(words) => r matches Ok(data) && data@ == (DataView {
                version: version@,
                solutions: words.0,
                guesses: words.1,
            }),
            Err(e) => r matches Err(x) && x == e,
        },
{
    let text = chars_of(s);
    let solutions_text = match array_in(s, text.as_slice(), "[\"cigar\",") {
        Some(slice) => slice,
        None => {
            return Err(WordleError::NotFound);
        },
    };
    let guesses_text = match array_in(s, text.as_slice(), "[\"aahed\",") {
        Some(slice) => slice,
        None => {
            return Err(WordleError::NotFound);
        },
    };
    let solutions = match read_json_strings(solutions_text) {
        Ok(strings) => match words_from_strings(&strings) {
            Ok(words) => words,
            Err(e) => {
                return Err(e);
            },
        },
        Err(_) => {
            return Err(WordleError::InvalidInput);
        },
    };
    let guesses = match read_json_strings(guesses_text) {
        Ok(strings) => match words_from_strings(&strings) {
            Ok(words) => words,
            Err(e) => {
                return Err(e);
            },
        },
        Err(_) => {
            return Err(WordleError::InvalidInput);
        },
    };
    Ok(Data { version, solutions, guesses })
}

} // verus!
