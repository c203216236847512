//! Directives and feedback, and the rule by which the puzzle scores a
//! guess against the solution.

use crate::error::WordleError;
use crate::word::{comes_before, lemma_word_eq, lemma_word_len, Word};
use std::cmp::Ordering;
use vstd::prelude::*;
use vstd::std_specs::iter::IteratorSpec;

verus! {

/// The verdict on one letter of a guess.
#[derive(Copy, Clone, PartialEq, Eq, Debug, Hash, Ord, Structural)]
pub enum Directive {
    /// The letter stands at this position of the solution.
    Green,
    /// The letter stands elsewhere in the solution, at a position that no
    /// other letter of the guess accounts for.
    Yellow,
    /// The solution has no occurrence of the letter left.
    Black,
}

/// The tile that a directive is shared as.
pub open spec fn tile(d: Directive) -> char {
    match d {
        Directive::Green => '\u{1F7E9}',
        Directive::Yellow => '\u{1F7E8}',
        Directive::Black => '\u{2B1B}',
    }
}

/// The letter that a directive is written as in a feedback code.
pub open spec fn code(d: Directive) -> char {
    match d {
        Directive::Green => 'g',
        Directive::Yellow => 'y',
        Directive::Black => 'b',
    }
}

/// The directive that a character of a feedback code stands for, in either
/// case, if it stands for one.
pub open spec fn directive_of(c: char) -> Option<Directive> {
    if c == 'g' || c == 'G' {
        Some(Directive::Green)
    } else if c == 'y' || c == 'Y' {
        Some(Directive::Yellow)
    } else if c == 'b' || c == 'B' {
        Some(Directive::Black)
    } else {
        None
    }
}

/// The place of a directive in their order: green first, black last.
pub open spec fn rank(d: Directive) -> u8 {
    match d {
        Directive::Green => 0,
        Directive::Yellow => 1,
        Directive::Black => 2,
    }
}

/// The places of the directives of a feedback.
pub open spec fn ranks(directives: Seq<Directive>) -> Seq<u8> {
    Seq::new(directives.len(), |i: int| rank(directives[i]))
}

impl PartialOrd for Directive {
    /// Green comes before yellow, and yellow before black.
    fn partial_cmp(&self, other: &Directive) -> (r: Option<Ordering>) {
        let a = self.place();
        let b = other.place();
        if a < b {
            Some(Ordering::Less)
        } else if a > b {
            Some(Ordering::Greater)
        } else {
            Some(Ordering::Equal)
        }
    }
}

impl vstd::std_specs::cmp::PartialOrdSpecImpl for Directive {
    open spec fn obeys_partial_cmp_spec() -> bool {
        true
    }

    open spec fn partial_cmp_spec(&self, other: &Directive) -> Option<Ordering> {
        if rank(*self) < rank(*other) {
            Some(Ordering::Less)
        } else if rank(*self) > rank(*other) {
            Some(Ordering::Greater)
        } else {
            Some(Ordering::Equal)
        }
    }
}

impl Directive {
    fn place(&self) -> (r: u8)
        ensures
            r == rank(*self),
    {
        match self {
            Directive::Green => 0,
            Directive::Yellow => 1,
            Directive::Black => 2,
        }
    }

    /// The tile of the directive: a green, a yellow or a black square.
    pub fn to_char(&self) -> (r: char)
        ensures
            r == tile(*self),
    {
        match self {
            Directive::Green => '\u{1F7E9}',
            Directive::Yellow => '\u{1F7E8}',
            Directive::Black => '\u{2B1B}',
        }
    }

    /// The code letter of the directive: `g`, `y` or `b`.
    pub fn to_code(&self) -> (r: char)
        ensures
            r == code(*self),
    {
        match self {
            Directive::Green => 'g',
            Directive::Yellow => 'y',
            Directive::Black => 'b',
        }
    }

    /// The directive for a code letter, in either case; `None` for any other
    /// character.
    pub fn from_code(c: char) -> (r: Option<Directive>)
        ensures
            r == directive_of(c),
    {
        if c == 'g' || c == 'G' {
            Some(Directive::Green)
        } else if c == 'y' || c == 'Y' {
            Some(Directive::Yellow)
        } else if c == 'b' || c == 'B' {
            Some(Directive::Black)
        } else {
            None
        }
    }
}

/// How many positions below `n` hold `c` in the solution and another letter
/// in the guess: the occurrences of `c` that no exact match accounts for.
pub open spec fn spare(guess: Seq<u8>, solution: Seq<u8>, c: u8, n: int) -> nat
    decreases n,
{
    if n <= 0 {
        0
    } else {
        spare(guess, solution, c, n - 1) + if solution[n - 1] == c && guess[n - 1] != c {
            1nat
        } else {
            0nat
        }
    }
}

/// How many positions below `n` hold `c` in the guess and another letter in
/// the solution: the misplaced occurrences of `c` that come before `n`.
pub open spec fn wanted(guess: Seq<u8>, solution: Seq<u8>, c: u8, n: int) -> nat
    decreases n,
{
    if n <= 0 {
        0
    } else {
        wanted(guess, solution, c, n - 1) + if guess[n - 1] == c && solution[n - 1] != c {
            1nat
        } else {
            0nat
        }
    }
}

/// The verdict on position `i` of the guess. An exact match is green. Any
/// other letter is yellow as long as the solution has an unmatched
/// occurrence of it left for it, the misplaced occurrences of the letter
/// being served from left to right; otherwise it is black.
pub open spec fn directive_at(guess: Seq<u8>, solution: Seq<u8>, i: int) -> Directive {
    if guess[i] == solution[i] {
        Directive::Green
    } else if wanted(guess, solution, guess[i], i) < spare(
        guess,
        solution,
        guess[i],
        guess.len() as int,
    ) {
        Directive::Yellow
    } else {
        Directive::Black
    }
}

/// The feedback that the puzzle gives for a guess against a solution.
pub open spec fn score(guess: Seq<u8>, solution: Seq<u8>) -> Seq<Directive> {
    Seq::new(guess.len(), |i: int| directive_at(guess, solution, i))
}

/// Whether every directive is green.
pub open spec fn all_green(directives: Seq<Directive>) -> bool {
    forall|i: int| 0 <= i < directives.len() ==> directives[i] == Directive::Green
}

/// How many positions below `n` hold `c` in the guess and are yellow.
pub open spec fn yellows(guess: Seq<u8>, solution: Seq<u8>, c: u8, n: int) -> nat
    decreases n,
{
    if n <= 0 {
        0
    } else {
        yellows(guess, solution, c, n - 1) + if guess[n - 1] == c && directive_at(
            guess,
            solution,
            n - 1,
        ) == Directive::Yellow {
            1nat
        } else {
            0nat
        }
    }
}

/// The smaller of two numbers.
pub open spec fn least(a: nat, b: nat) -> nat {
    if a <= b {
        a
    } else {
        b
    }
}

/// How many of the solution's unmatched occurrences of `c` below `n` are
/// marked in `claimed`.
spec fn taken(claimed: Seq<bool>, guess: Seq<u8>, solution: Seq<u8>, c: u8, n: int) -> nat
    decreases n,
{
    if n <= 0 {
        0
    } else {
        taken(claimed, guess, solution, c, n - 1) + if claimed[n - 1] && solution[n - 1] == c
            && guess[n - 1] != c {
            1nat
        } else {
            0nat
        }
    }
}

proof fn lemma_taken_bounds(claimed: Seq<bool>, guess: Seq<u8>, solution: Seq<u8>, c: u8, n: int)
    ensures
        taken(claimed, guess, solution, c, n) <= spare(guess, solution, c, n),
        (exists|j: int| 0 <= j < n && !claimed[j] && solution[j] == c && guess[j] != c) ==> taken(
            claimed,
            guess,
            solution,
            c,
            n,
        ) < spare(guess, solution, c, n),
        (forall|j: int| 0 <= j < n && solution[j] == c && guess[j] != c ==> claimed[j]) ==> taken(
            claimed,
            guess,
            solution,
            c,
            n,
        ) == spare(guess, solution, c, n),
        (forall|j: int| 0 <= j < n && claimed[j] ==> guess[j] == solution[j]) ==> taken(
            claimed,
            guess,
            solution,
            c,
            n,
        ) == 0,
    decreases n,
{
    if n > 0 {
        lemma_taken_bounds(claimed, guess, solution, c, n - 1);
        if exists|j: int| 0 <= j < n && !claimed[j] && solution[j] == c && guess[j] != c {
            let j = choose|j: int| 0 <= j < n && !claimed[j] && solution[j] == c && guess[j] != c;
            if j < n - 1 {
                assert(0 <= j < n - 1 && !claimed[j] && solution[j] == c && guess[j] != c);
            }
        }
    }
}

proof fn lemma_taken_claim(
    claimed: Seq<bool>,
    guess: Seq<u8>,
    solution: Seq<u8>,
    c: u8,
    n: int,
    j: int,
)
    requires
        0 <= j < claimed.len(),
        n <= claimed.len(),
        !claimed[j],
        guess[j] != solution[j],
    ensures
        taken(claimed.update(j, true), guess, solution, c, n) == taken(
            claimed,
            guess,
            solution,
            c,
            n,
        ) + if j < n && solution[j] == c {
            1nat
        } else {
            0nat
        },
    decreases n,
{
    if n > 0 {
        lemma_taken_claim(claimed, guess, solution, c, n - 1, j);
    }
}

/// The feedback for one guess: five directives, one for each position.
#[derive(Clone, Copy, Eq, Hash, Debug, Ord)]
pub struct Feedback {
    directives: [Directive; 5],
}

impl View for Feedback {
    type V = Seq<Directive>;

    closed spec fn view(&self) -> Seq<Directive> {
        Seq::new(5, |i: int| self.directives[i])
    }
}

/// Every feedback has five directives.
pub broadcast proof fn lemma_feedback_len(f: Feedback)
    ensures
        #[trigger] f@.len() == 5,
{
}

impl Feedback {
    /// The feedback for `guess` against `solution`, by the puzzle's rule:
    /// exact matches first, then each other letter of the guess, from the
    /// left, claims the leftmost occurrence in the solution that is still
    /// free.
    pub fn from_word(guess: &Word, solution: &Word) -> (r: Feedback)
        ensures
            r@ == score(guess@, solution@),
    {
        broadcast use lemma_word_len;

        let ghost g = guess@;
        let ghost s = solution@;
        let mut directives = [Directive::Black; 5];
        let mut claimed = [false; 5];

        let mut i: usize = 0;
        while i < 5
            invariant
                i <= 5,
                g == guess@,
                s == solution@,
                g.len() == 5,
                s.len() == 5,
                forall|j: int|
                    0 <= j < 5 ==> #[trigger] directives@[j] == if j < i && g[j] == s[j] {
                        Directive::Green
                    } else {
                        Directive::Black
                    },
                forall|j: int| 0 <= j < 5 ==> #[trigger] claimed@[j] == (j < i && g[j] == s[j]),
            decreases 5 - i,
        {
            if solution[i] == guess[i] {
                directives[i] = Directive::Green;
                claimed[i] = true;
            }
            i += 1;
        }

        proof {
            assert forall|c: u8| #[trigger] taken(claimed@, g, s, c, 5) == 0 by {
                lemma_taken_bounds(claimed@, g, s, c, 5);
            }
        }

        let mut i: usize = 0;
        while i < 5
            invariant
                i <= 5,
                g == guess@,
                s == solution@,
                g.len() == 5,
                s.len() == 5,
                forall|j: int| 0 <= j < 5 && g[j] == s[j] ==> claimed@[j],
                forall|j: int|
                    0 <= j < 5 ==> directives@[j] == if j < i {
                        directive_at(g, s, j)
                    } else if g[j] == s[j] {
                        Directive::Green
                    } else {
                        Directive::Black
                    },
                forall|c: u8| #[trigger]
                    taken(claimed@, g, s, c, 5) == least(spare(g, s, c, 5), wanted(g, s, c, i as int)),
            decreases 5 - i,
        {
            let c = guess[i];
            if directives[i] != Directive::Green {
                assert(g[i as int] != s[i as int]);
                let ghost before = claimed@;
                let mut j: usize = 0;
                let mut found = false;
                while j < 5 && !found
                    invariant
                        j <= 5,
                        i < 5,
                        s == solution@,
                        s.len() == 5,
                        g.len() == 5,
                        c@ == g[i as int],
                        !found ==> claimed@ == before,
                        !found ==> forall|k: int| 0 <= k < j ==> claimed@[k] || s[k] != c@,
                        found ==> 0 < j && !before[j - 1] && s[j - 1] == c@ && claimed@
                            == before.update(j - 1, true),
                        directives@[i as int] == if found {
                            Directive::Yellow
                        } else {
                            Directive::Black
                        },
                        forall|k: int|
                            0 <= k < 5 && k != i ==> directives@[k] == if k < i {
                                directive_at(g, s, k)
                            } else if g[k] == s[k] {
                                Directive::Green
                            } else {
                                Directive::Black
                            },
                    decreases 5 - j + if found { 0int } else { 1int },
                {
                    if !claimed[j] && solution[j] == c {
                        directives[i] = Directive::Yellow;
                        claimed[j] = true;
                        found = true;
                    }
                    j += 1;
                }
                proof {
                    assert forall|e: u8| #[trigger]
                        taken(claimed@, g, s, e, 5) == least(
                            spare(g, s, e, 5),
                            wanted(g, s, e, i + 1),
                        ) by {
                        lemma_taken_bounds(before, g, s, e, 5);
                        if found {
                            lemma_taken_claim(before, g, s, e, 5, j - 1);
                        }
                    }
                    lemma_taken_bounds(before, g, s, c@, 5);
                }
            }
            i += 1;
        }
        let r = Feedback { directives };
        assert(r@ =~= score(g, s));
        r
    }

    /// The feedback written in `s`: five code letters, `g`, `y` or `b`, in
    /// either case.
    pub fn from_str(s: &str) -> (r: Result<Feedback, WordleError>)
        ensures
            r is Ok <==> s@.len() == 5 && forall|i: int| 0 <= i < 5 ==> directive_of(s@[i]) is Some,
            r matches Ok(f) ==> forall|i: int| 0 <= i < 5 ==> Some(f@[i]) == directive_of(s@[i]),
            r is Err ==> r == Err::<Feedback, WordleError>(WordleError::InvalidInput),
    {
        if s.unicode_len() != 5 {
            return Err(WordleError::InvalidInput);
        }
        let mut directives = [Directive::Black; 5];
        let mut i: usize = 0;
        while i < 5
            invariant
                i <= 5,
                s@.len() == 5,
                forall|j: int| 0 <= j < i ==> Some(directives@[j]) == directive_of(s@[j]),
            decreases 5 - i,
        {
            match Directive::from_code(s.get_char(i)) {
                Some(d) => {
                    directives[i] = d;
                },
                None => {
                    return Err(WordleError::InvalidInput);
                },
            }
            i += 1;
        }
        let f = Feedback { directives };
        assert forall|i: int| 0 <= i < 5 implies Some(f@[i]) == directive_of(s@[i]) by {
            assert(f@[i] == directives@[i]);
        }
        Ok(f)
    }

    /// The feedback as five tiles, for sharing.
    pub fn to_string(&self) -> (r: String)
        ensures
            r@ == Seq::new(5, |i: int| tile(self@[i])),
    {
        let ghost want = Seq::new(5, |i: int| tile(self@[i]));
        let mut s = String::new();
        let mut i: usize = 0;
        while i < 5
            invariant
                i <= 5,
                want == Seq::new(5, |i: int| tile(self@[i])),
                s@ == want.take(i as int),
            decreases 5 - i,
        {
            s.push(self.directives[i].to_char());
            assert(want.take(i + 1) =~= want.take(i as int).push(tile(self@[i as int])));
            i += 1;
        }
        assert(want.take(5) =~= want);
        s
    }

    /// The feedback as five code letters.
    pub fn to_code(&self) -> (r: String)
        ensures
            r@ == Seq::new(5, |i: int| code(self@[i])),
    {
        let ghost want = Seq::new(5, |i: int| code(self@[i]));
        let mut s = String::new();
        let mut i: usize = 0;
        while i < 5
            invariant
                i <= 5,
                want == Seq::new(5, |i: int| code(self@[i])),
                s@ == want.take(i as int),
            decreases 5 - i,
        {
            s.push(self.directives[i].to_code());
            assert(want.take(i + 1) =~= want.take(i as int).push(code(self@[i as int])));
            i += 1;
        }
        assert(want.take(5) =~= want);
        s
    }

    /// Whether the puzzle is solved: every directive is green.
    pub fn is_all_green(&self) -> (r: bool)
        ensures
            r == all_green(self@),
    {
        let mut i: usize = 0;
        while i < 5
            invariant
                i <= 5,
                forall|j: int| 0 <= j < i ==> self@[j] == Directive::Green,
            decreases 5 - i,
        {
            if self.directives[i] != Directive::Green {
                assert(self@[i as int] != Directive::Green);
                return false;
            }
            i += 1;
        }
        true
    }

    /// An iterator over the five directives, in order.
    pub fn iter(&self) -> (r: std::slice::Iter<'_, Directive>)
        ensures
            r.remaining().len() == 5,
            forall|i: int| 0 <= i < 5 ==> *(#[trigger] r.remaining()[i]) == self@[i],
    {
        self.directives.iter()
    }
}

impl Feedback {
    /// The places of the directives of the two feedbacks at the first
    /// position where they differ.
    fn first_difference(&self, other: &Feedback) -> (r: Option<(u8, u8)>)
        ensures
            match r {
                Some(pair) => self@ != other@ && pair.0 != pair.1 && (pair.0 < pair.1
                    <==> comes_before(ranks(self@), ranks(other@))),
                None => self@ == other@,
            },
    {
        let ghost x = ranks(self@);
        let ghost y = ranks(other@);
        let mut i: usize = 0;
        while i < 5
            invariant
                i <= 5,
                x == ranks(self@),
                y == ranks(other@),
                forall|j: int| 0 <= j < i ==> self@[j] == other@[j],
            decreases 5 - i,
        {
            let a = self.directives[i].place();
            let b = other.directives[i].place();
            if a != b {
                assert(x[i as int] == a && y[i as int] == b);
                assert(self@[i as int] != other@[i as int]);
                assert(x.take(i as int) =~= y.take(i as int));
                assert forall|k: int| 0 <= k < 5 && x[k] < y[k] && x.take(k) == y.take(k) implies k
                    == i by {
                    if k > i {
                        assert(x.take(k)[i as int] != y.take(k)[i as int]);
                    }
                }
                return Some((a, b));
            }
            assert(self@[i as int] == other@[i as int]);
            i += 1;
        }
        assert(self@ =~= other@);
        None
    }
}

impl PartialEq for Feedback {
    /// Whether the two feedbacks have the same directives.
    fn eq(&self, other: &Feedback) -> (r: bool) {
        self.first_difference(other).is_none()
    }
}

impl vstd::std_specs::cmp::PartialEqSpecImpl for Feedback {
    open spec fn obeys_eq_spec() -> bool {
        true
    }

    open spec fn eq_spec(&self, other: &Feedback) -> bool {
        self@ == other@
    }
}

impl PartialOrd for Feedback {
    /// The order of the directives, position by position.
    fn partial_cmp(&self, other: &Feedback) -> (r: Option<Ordering>) {
        match self.first_difference(other) {
            Some(pair) => if pair.0 < pair.1 {
                Some(Ordering::Less)
            } else {
                Some(Ordering::Greater)
            },
            None => Some(Ordering::Equal),
        }
    }
}

impl vstd::std_specs::cmp::PartialOrdSpecImpl for Feedback {
    open spec fn obeys_partial_cmp_spec() -> bool {
        true
    }

    open spec fn partial_cmp_spec(&self, other: &Feedback) -> Option<Ordering> {
        if self@ == other@ {
            Some(Ordering::Equal)
        } else if comes_before(ranks(self@), ranks(other@)) {
            Some(Ordering::Less)
        } else {
            Some(Ordering::Greater)
        }
    }
}

impl std::ops::Index<usize> for Feedback {
    type Output = Directive;

    /// The directive at position `ix`, which must be below five.
    fn index(&self, ix: usize) -> (r: &Directive)
        ensures
            *r == self@[ix as int],
    {
        &self.directives[ix]
    }
}

impl vstd::std_specs::core::IndexSpecImpl<usize> for Feedback {
    open spec fn index_req(&self, ix: &usize) -> bool {
        *ix < 5
    }
}

/// A guess scores all green against a solution exactly when it is the
/// solution; so a word scores all green against itself.
pub proof fn lemma_all_green_iff_equal(guess: Seq<u8>, solution: Seq<u8>)
    requires
        guess.len() == solution.len(),
    ensures
        all_green(score(guess, solution)) <==> guess == solution,
        all_green(score(solution, solution)),
{
    if all_green(score(guess, solution)) {
        assert forall|i: int| 0 <= i < guess.len() implies guess[i] == solution[i] by {
            assert(score(guess, solution)[i] == Directive::Green);
        }
        assert(guess =~= solution);
    }
}

/// The feedback for a guess is all green exactly when the guess is the
/// solution.
pub proof fn lemma_solved_iff_same_word(guess: Word, solution: Word)
    ensures
        all_green(score(guess@, solution@)) <==> guess == solution,
{
    broadcast use lemma_word_len;

    lemma_all_green_iff_equal(guess@, solution@);
    if guess@ == solution@ {
        lemma_word_eq(guess, solution);
    }
}

/// A feedback code reads back as the directives that it was written from.
pub proof fn lemma_code_round_trip(directives: Seq<Directive>)
    ensures
        forall|i: int|
            0 <= i < directives.len() ==> directive_of(code(#[trigger] directives[i])) == Some(
                directives[i],
            ),
{
}

/// Of each letter, as many occurrences in the guess are yellow as the
/// solution has unmatched occurrences of it, or all the misplaced ones where
/// those are fewer: never more yellows than occurrences left to find.
pub proof fn lemma_yellows_capped(guess: Seq<u8>, solution: Seq<u8>, c: u8, n: int)
    requires
        guess.len() == solution.len(),
        0 <= n <= guess.len(),
    ensures
        yellows(guess, solution, c, n) == least(
            spare(guess, solution, c, guess.len() as int),
            wanted(guess, solution, c, n),
        ),
        yellows(guess, solution, c, n) <= spare(guess, solution, c, guess.len() as int),
    decreases n,
{
    if n > 0 {
        lemma_yellows_capped(guess, solution, c, n - 1);
    }
}

} // verus!
