//! Letters and words of five letters.

use crate::error::WordleError;
use std::cmp::Ordering;
use vstd::prelude::*;
use vstd::std_specs::iter::IteratorSpec;

verus! {

/// The number of letters of every word of the puzzle.
pub const WORD_SIZE: usize = 5;

/// An ASCII capital letter becomes its small letter; any other character
/// stays as it is.
pub open spec fn ascii_lower(c: char) -> char {
    if 'A' <= c && c <= 'Z' {
        ((c as int) + 32) as char
    } else {
        c
    }
}

/// The byte under which a character is kept: the low eight bits of its
/// lower-case form.
pub open spec fn letter_code(c: char) -> u8 {
    ((ascii_lower(c) as int) % 256) as u8
}

/// The letters of a text, each as the byte under which it is kept.
pub open spec fn letter_codes(s: Seq<char>) -> Seq<u8> {
    Seq::new(s.len(), |i: int| letter_code(s[i]))
}

/// The text that a sequence of letters is rendered as.
pub open spec fn letters_text(letters: Seq<u8>) -> Seq<char> {
    Seq::new(letters.len(), |i: int| letters[i] as char)
}

/// One letter, kept case-normalized as a single byte.
#[derive(Clone, Copy, Eq, Ord, Hash, Debug)]
pub struct Char {
    c: u8,
}

impl View for Char {
    type V = u8;

    closed spec fn view(&self) -> u8 {
        self.c
    }
}

impl Char {
    /// The letter for a character. Every character is accepted.
    pub fn from_char(c: char) -> (r: Char)
        ensures
            r@ == letter_code(c),
    {
        if 'A' <= c && c <= 'Z' {
            Char { c: (c as u8) + 32 }
        } else {
            let x: u32 = c as u32;
            assert((x as u8) as u32 == x % 256) by (bit_vector);
            Char { c: #[verifier::truncate] (x as u8) }
        }
    }

    /// The letter as a character.
    pub fn char(&self) -> (r: char)
        ensures
            r == self@ as char,
    {
        self.c as char
    }
}

impl PartialEq for Char {
    /// Whether the two are the same letter.
    fn eq(&self, other: &Char) -> (r: bool) {
        self.c == other.c
    }
}

impl vstd::std_specs::cmp::PartialEqSpecImpl for Char {
    open spec fn obeys_eq_spec() -> bool {
        true
    }

    open spec fn eq_spec(&self, other: &Char) -> bool {
        self@ == other@
    }
}

impl PartialOrd for Char {
    /// The order of the letters, by their bytes.
    fn partial_cmp(&self, other: &Char) -> (r: Option<Ordering>) {
        if self.c < other.c {
            Some(Ordering::Less)
        } else if self.c > other.c {
            Some(Ordering::Greater)
        } else {
            Some(Ordering::Equal)
        }
    }
}

impl vstd::std_specs::cmp::PartialOrdSpecImpl for Char {
    open spec fn obeys_partial_cmp_spec() -> bool {
        true
    }

    open spec fn partial_cmp_spec(&self, other: &Char) -> Option<Ordering> {
        if self@ < other@ {
            Some(Ordering::Less)
        } else if self@ > other@ {
            Some(Ordering::Greater)
        } else {
            Some(Ordering::Equal)
        }
    }
}

impl Default for Char {
    /// The letter "a".
    fn default() -> (r: Char)
        ensures
            r@ == 'a' as u8,
    {
        Char { c: 97 }
    }
}

/// Whether `a` comes before `b` in the order of the dictionary: at the first
/// position where the two differ, `a` has the smaller letter.
pub open spec fn comes_before(a: Seq<u8>, b: Seq<u8>) -> bool {
    exists|i: int| 0 <= i < a.len() && i < b.len() && a[i] < b[i] && a.take(i) == b.take(i)
}

proof fn lemma_first_difference(a: Seq<u8>, b: Seq<u8>, n: int)
    requires
        a.len() == b.len(),
        0 <= n <= a.len(),
        a.take(n) != b.take(n),
    ensures
        exists|i: int| 0 <= i < n && a[i] != b[i] && a.take(i) == b.take(i),
    decreases n,
{
    if n == 0 {
        assert(a.take(0) =~= b.take(0));
    } else if a.take(n - 1) != b.take(n - 1) {
        lemma_first_difference(a, b, n - 1);
    } else {
        if a[n - 1] == b[n - 1] {
            assert(a.take(n) =~= a.take(n - 1).push(a[n - 1]));
            assert(b.take(n) =~= b.take(n - 1).push(b[n - 1]));
        }
        assert(0 <= n - 1 < n && a[n - 1] != b[n - 1] && a.take(n - 1) == b.take(n - 1));
    }
}

/// The order of the dictionary is a total order of the sequences of one
/// length: of two of them, one comes before the other or they are the same,
/// and never both; and what comes before a sequence comes before all that
/// this one comes before.
pub proof fn lemma_dictionary_order(a: Seq<u8>, b: Seq<u8>, c: Seq<u8>)
    requires
        a.len() == b.len(),
        b.len() == c.len(),
    ensures
        a == b || comes_before(a, b) || comes_before(b, a),
        !(comes_before(a, b) && comes_before(b, a)),
        !comes_before(a, a),
        comes_before(a, b) && comes_before(b, c) ==> comes_before(a, c),
{
    if a != b {
        assert(a.take(a.len() as int) =~= a);
        assert(b.take(b.len() as int) =~= b);
        lemma_first_difference(a, b, a.len() as int);
        let i = choose|i: int| 0 <= i < a.len() && a[i] != b[i] && a.take(i) == b.take(i);
        assert(b.take(i) == a.take(i));
        if a[i] < b[i] {
            assert(comes_before(a, b));
        } else {
            assert(0 <= i < b.len() && i < a.len() && b[i] < a[i] && b.take(i) == a.take(i));
        }
    }
    if comes_before(a, b) && comes_before(b, a) {
        let i = choose|i: int|
            0 <= i < a.len() && i < b.len() && a[i] < b[i] && a.take(i) == b.take(i);
        let j = choose|j: int|
            0 <= j < b.len() && j < a.len() && b[j] < a[j] && b.take(j) == a.take(j);
        if i < j {
            assert(b.take(j)[i] == a.take(j)[i]);
        } else if j < i {
            assert(a.take(i)[j] == b.take(i)[j]);
        }
    }
    if comes_before(a, b) && comes_before(b, c) {
        let i = choose|i: int|
            0 <= i < a.len() && i < b.len() && a[i] < b[i] && a.take(i) == b.take(i);
        let j = choose|j: int|
            0 <= j < b.len() && j < c.len() && b[j] < c[j] && b.take(j) == c.take(j);
        let k = if i <= j {
            i
        } else {
            j
        };
        assert(a.take(k) =~= c.take(k)) by {
            assert forall|x: int| 0 <= x < k implies a[x] == c[x] by {
                assert(a.take(i)[x] == b.take(i)[x]);
                assert(b.take(j)[x] == c.take(j)[x]);
            }
        }
        if i < j {
            assert(b.take(j)[i] == c.take(j)[i]);
        } else if j < i {
            assert(a.take(i)[j] == b.take(i)[j]);
        }
        assert(0 <= k < a.len() && k < c.len() && a[k] < c[k] && a.take(k) == c.take(k));
    }
}

/// A word of exactly five letters.
#[derive(Copy, Clone, Hash, Debug, Eq, Ord)]
pub struct Word {
    chars: [Char; 5],
}

impl View for Word {
    type V = Seq<u8>;

    closed spec fn view(&self) -> Seq<u8> {
        Seq::new(5, |i: int| self.chars[i]@)
    }
}

/// Every word has five letters.
pub broadcast proof fn lemma_word_len(w: Word)
    ensures
        #[trigger] w@.len() == 5,
{
}

/// A list of words, each as its letters.
pub open spec fn lettered(words: Seq<Word>) -> Seq<Seq<u8>> {
    Seq::new(words.len(), |i: int| words[i]@)
}

/// Two words with the same letters are the same word.
pub proof fn lemma_word_eq(a: Word, b: Word)
    requires
        a@ == b@,
    ensures
        a == b,
{
    assert forall|i: int| 0 <= i < 5 implies a.chars[i] == b.chars[i] by {
        assert(a@[i] == a.chars[i]@);
        assert(b@[i] == b.chars[i]@);
    }
    assert(a.chars =~= b.chars);
}

impl Word {
    /// The word written in `s`, which must have exactly five characters.
    pub fn from_str(s: &str) -> (r: Result<Word, WordleError>)
        ensures
            s@.len() == 5 ==> r is Ok && r->Ok_0@ == letter_codes(s@),
            s@.len() != 5 ==> r == Err::<Word, WordleError>(WordleError::InvalidInput),
    {
        if s.unicode_len() != WORD_SIZE {
            return Err(WordleError::InvalidInput);
        }
        let mut chars = [Char::default(); 5];
        let mut i: usize = 0;
        while i < 5
            invariant
                i <= 5,
                s@.len() == 5,
                forall|j: int| 0 <= j < i ==> chars[j]@ == letter_code(s@[j]),
            decreases 5 - i,
        {
            chars[i] = Char::from_char(s.get_char(i));
            i += 1;
        }
        let w = Word { chars };
        assert(w@ =~= letter_codes(s@));
        Ok(w)
    }

    /// The five letters.
    pub fn chars(&self) -> (r: &[Char])
        ensures
            r@.len() == 5,
            forall|i: int| 0 <= i < 5 ==> r@[i]@ == self@[i],
    {
        &self.chars
    }

    /// Whether the letter occurs anywhere in the word.
    pub fn contains(&self, c: Char) -> (r: bool)
        ensures
            r == self@.contains(c@),
    {
        let mut i: usize = 0;
        while i < 5
            invariant
                i <= 5,
                forall|j: int| 0 <= j < i ==> self@[j] != c@,
            decreases 5 - i,
        {
            if self.chars[i] == c {
                assert(self@[i as int] == c@);
                return true;
            }
            i += 1;
        }
        false
    }

    /// The word as text: its five letters, in order.
    pub fn to_string(&self) -> (r: String)
        ensures
            r@ == letters_text(self@),
    {
        let mut s = String::new();
        let mut i: usize = 0;
        while i < 5
            invariant
                i <= 5,
                s@ == letters_text(self@).take(i as int),
            decreases 5 - i,
        {
            s.push(self.chars[i].char());
            assert(letters_text(self@).take(i + 1) =~= letters_text(self@).take(i as int).push(
                self@[i as int] as char,
            ));
            i += 1;
        }
        assert(letters_text(self@).take(5) =~= letters_text(self@));
        s
    }

    /// An iterator over the five letters, in order.
    pub fn iter(&self) -> (r: std::slice::Iter<'_, Char>)
        ensures
            r.remaining().len() == 5,
            forall|i: int| 0 <= i < 5 ==> (#[trigger] r.remaining()[i])@ == self@[i],
    {
        self.chars.iter()
    }
}

impl PartialEq for Word {
    /// Whether the two words have the same letters.
    fn eq(&self, other: &Word) -> (r: bool) {
        let mut i: usize = 0;
        while i < 5
            invariant
                i <= 5,
                forall|j: int| 0 <= j < i ==> self@[j] == other@[j],
            decreases 5 - i,
        {
            if self.chars[i] != other.chars[i] {
                assert(self@[i as int] != other@[i as int]);
                return false;
            }
            i += 1;
        }
        assert(self@ =~= other@);
        true
    }
}

impl vstd::std_specs::cmp::PartialEqSpecImpl for Word {
    open spec fn obeys_eq_spec() -> bool {
        true
    }

    open spec fn eq_spec(&self, other: &Word) -> bool {
        self@ == other@
    }
}

impl Word {
    /// The letters of the two words at the first position where they
    /// differ.
    fn first_difference(&self, other: &Word) -> (r: Option<(u8, u8)>)
        ensures
            match r {
                Some(pair) => self@ != other@ && pair.0 != pair.1 && (pair.0 < pair.1
                    <==> comes_before(self@, other@)),
                None => self@ == other@,
            },
    {
        let mut i: usize = 0;
        while i < 5
            invariant
                i <= 5,
                forall|j: int| 0 <= j < i ==> self@[j] == other@[j],
            decreases 5 - i,
        {
            let a = self.chars[i].c;
            let b = other.chars[i].c;
            if a != b {
                assert(self@[i as int] == a && other@[i as int] == b);
                assert(self@.take(i as int) =~= other@.take(i as int));
                assert forall|k: int|
                    0 <= k < 5 && self@[k] < other@[k] && self@.take(k) == other@.take(
                        k,
                    ) implies k == i by {
                    if k > i {
                        assert(self@.take(k)[i as int] != other@.take(k)[i as int]);
                    }
                }
                return Some((a, b));
            }
            i += 1;
        }
        assert(self@ =~= other@);
        None
    }
}

impl PartialOrd for Word {
    /// The order of the dictionary, letter by letter.
    fn partial_cmp(&self, other: &Word) -> (r: Option<Ordering>) {
        match self.first_difference(other) {
            Some(pair) => if pair.0 < pair.1 {
                Some(Ordering::Less)
            } else {
                Some(Ordering::Greater)
            },
            None => Some(Ordering::Equal),
        }
    }
}

impl vstd::std_specs::cmp::PartialOrdSpecImpl for Word {
    open spec fn obeys_partial_cmp_spec() -> bool {
        true
    }

    open spec fn partial_cmp_spec(&self, other: &Word) -> Option<Ordering> {
        if self@ == other@ {
            Some(Ordering::Equal)
        } else if comes_before(self@, other@) {
            Some(Ordering::Less)
        } else {
            Some(Ordering::Greater)
        }
    }
}

impl std::ops::Index<usize> for Word {
    type Output = Char;

    /// The letter at position `ix`, which must be below five.
    fn index(&self, ix: usize) -> (r: &Char)
        ensures
            r@ == self@[ix as int],
    {
        &self.chars[ix]
    }
}

impl vstd::std_specs::core::IndexSpecImpl<usize> for Word {
    open spec fn index_req(&self, ix: &usize) -> bool {
        *ix < 5
    }
}

/// Parsing a five-character text of one-byte characters and rendering the
/// word gives the text back with its ASCII capitals made small; a text
/// without ASCII capitals comes back unchanged.
pub proof fn lemma_word_round_trip(s: Seq<char>)
    requires
        s.len() == 5,
        forall|i: int| 0 <= i < 5 ==> (s[i] as int) < 256,
    ensures
        letters_text(letter_codes(s)) == Seq::new(5, |i: int| ascii_lower(s[i])),
        (forall|i: int| 0 <= i < 5 ==> !('A' <= s[i] && s[i] <= 'Z')) ==> letters_text(
            letter_codes(s),
        ) == s,
{
    assert(letters_text(letter_codes(s)) =~= Seq::new(5, |i: int| ascii_lower(s[i])));
    if forall|i: int| 0 <= i < 5 ==> !('A' <= s[i] && s[i] <= 'Z') {
        assert(letters_text(letter_codes(s)) =~= s);
    }
}

} // verus!
