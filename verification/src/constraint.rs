//! Constraints: the letters that a guess has shown to be in the solution
//! at another position.

use crate::feedback::{lemma_feedback_len, Directive, Feedback};
use crate::word::{lemma_word_len, Word};
use vstd::prelude::*;

verus! {

/// Whether the letters stand in ascending order, none of them twice.
pub open spec fn is_ascending(letters: Seq<u8>) -> bool {
    forall|i: int, j: int| 0 <= i < j < letters.len() ==> letters[i] < letters[j]
}

/// Whether `c` stands at a yellow position of the word.
pub open spec fn is_yellow_letter(word: Seq<u8>, directives: Seq<Directive>, c: u8) -> bool {
    exists|i: int| 0 <= i < word.len() && directives[i] == Directive::Yellow && word[i] == c
}

/// The letters below `n` that stand at a yellow position of the word, in
/// ascending order, each once.
pub open spec fn yellow_letters_below(word: Seq<u8>, directives: Seq<Directive>, n: int) -> Seq<u8>
    decreases n,
{
    if n <= 0 {
        Seq::empty()
    } else {
        let rest = yellow_letters_below(word, directives, n - 1);
        if is_yellow_letter(word, directives, (n - 1) as u8) {
            rest.push((n - 1) as u8)
        } else {
            rest
        }
    }
}

/// The letters that stand at a yellow position of the word, in ascending
/// order, each once.
pub open spec fn yellow_letters(word: Seq<u8>, directives: Seq<Directive>) -> Seq<u8> {
    yellow_letters_below(word, directives, 256)
}

/// Whether `b` has every letter of `a` and is longer than `a`.
pub open spec fn compatible(a: Seq<u8>, b: Seq<u8>) -> bool {
    &&& b.len() > a.len()
    &&& forall|i: int| 0 <= i < a.len() ==> b.contains(#[trigger] a[i])
}

/// The letters that a guess has shown to be in the solution at another
/// position: a set of letters, kept in ascending order.
#[derive(Hash, PartialEq, Eq, PartialOrd, Ord, Debug)]
pub struct Constraint {
    letters: Vec<u8>,
}

impl View for Constraint {
    type V = Seq<u8>;

    closed spec fn view(&self) -> Seq<u8> {
        self.letters@
    }
}

impl Clone for Constraint {
    /// A constraint with the same letters.
    fn clone(&self) -> (r: Constraint)
        ensures
            r@ == self@,
    {
        Constraint { letters: self.letters.clone() }
    }
}

proof fn lemma_below(word: Seq<u8>, directives: Seq<Directive>, n: int)
    requires
        0 <= n <= 256,
    ensures
        is_ascending(yellow_letters_below(word, directives, n)),
        yellow_letters_below(word, directives, n).len() <= n,
        forall|c: u8| #[trigger]
            yellow_letters_below(word, directives, n).contains(c) <==> c < n && is_yellow_letter(
                word,
                directives,
                c,
            ),
    decreases n,
{
    if n > 0 {
        lemma_below(word, directives, n - 1);
        let rest = yellow_letters_below(word, directives, n - 1);
        let all = yellow_letters_below(word, directives, n);
        let top = (n - 1) as u8;
        assert forall|i: int| 0 <= i < rest.len() implies rest[i] < top by {
            assert(rest.contains(rest[i]));
        }
        assert forall|c: u8| #[trigger] all.contains(c) <==> c < n && is_yellow_letter(
            word,
            directives,
            c,
        ) by {
            if all.contains(c) {
                let i = choose|i: int| 0 <= i < all.len() && all[i] == c;
                if i < rest.len() {
                    assert(rest.contains(c));
                }
            }
            if c < n && is_yellow_letter(word, directives, c) {
                if c == top {
                    assert(all[all.len() - 1] == c);
                } else {
                    assert(rest.contains(c));
                    let i = choose|i: int| 0 <= i < rest.len() && rest[i] == c;
                    assert(all[i] == c);
                }
            }
        }
    }
}

proof fn lemma_only_one(word: Seq<u8>, directives: Seq<Directive>, n: int, letters: Seq<u8>)
    requires
        0 <= n <= 256,
        is_ascending(letters),
        forall|c: u8| #[trigger]
            letters.contains(c) <==> c < n && is_yellow_letter(word, directives, c),
    ensures
        letters == yellow_letters_below(word, directives, n),
    decreases n,
{
    if n == 0 {
        if letters.len() > 0 {
            assert(letters.contains(letters[0]));
        }
        assert(letters =~= Seq::empty());
    } else {
        let top = (n - 1) as u8;
        assert forall|i: int| 0 <= i < letters.len() implies letters[i] < n by {
            assert(letters.contains(letters[i]));
        }
        if is_yellow_letter(word, directives, top) {
            assert(letters.contains(top));
            let k = choose|k: int| 0 <= k < letters.len() && letters[k] == top;
            let last = letters.len() - 1;
            assert(k == last) by {
                if k < last {
                    assert(letters[k] < letters[last]);
                }
            }
            let front = letters.drop_last();
            assert forall|c: u8| #[trigger]
                front.contains(c) <==> c < n - 1 && is_yellow_letter(word, directives, c) by {
                if front.contains(c) {
                    let i = choose|i: int| 0 <= i < front.len() && front[i] == c;
                    assert(letters[i] == c);
                    assert(letters[i] < letters[last]);
                    assert(letters.contains(c));
                }
                if c < n - 1 && is_yellow_letter(word, directives, c) {
                    assert(letters.contains(c));
                    let i = choose|i: int| 0 <= i < letters.len() && letters[i] == c;
                    assert(front[i] == c);
                }
            }
            lemma_only_one(word, directives, n - 1, front);
            assert(letters =~= front.push(top));
        } else {
            assert forall|c: u8| #[trigger]
                letters.contains(c) <==> c < n - 1 && is_yellow_letter(word, directives, c) by {}
            lemma_only_one(word, directives, n - 1, letters);
        }
    }
}

spec fn occurs_below(word: Seq<u8>, n: int, c: u8) -> bool {
    exists|i: int| 0 <= i < n && word[i] == c
}

proof fn lemma_few(letters: Seq<u8>, word: Seq<u8>, n: int)
    requires
        0 <= n <= word.len(),
        is_ascending(letters),
        forall|k: int| 0 <= k < letters.len() ==> occurs_below(word, n, #[trigger] letters[k]),
    ensures
        letters.len() <= n,
    decreases n,
{
    if n == 0 {
        if letters.len() > 0 {
            assert(occurs_below(word, n, letters[0]));
        }
    } else {
        let c = word[n - 1];
        if letters.contains(c) {
            let k = choose|k: int| 0 <= k < letters.len() && letters[k] == c;
            let fewer = letters.remove(k);
            assert forall|x: int| 0 <= x < fewer.len() implies occurs_below(
                word,
                n - 1,
                #[trigger] fewer[x],
            ) by {
                let y = if x < k {
                    x
                } else {
                    x + 1
                };
                assert(fewer[x] == letters[y]);
                assert(y < k ==> letters[y] < letters[k]);
                assert(y > k ==> letters[k] < letters[y]);
                assert(occurs_below(word, n, letters[y]));
                let i = choose|i: int| 0 <= i < n && word[i] == letters[y];
                assert(0 <= i < n - 1 && word[i] == fewer[x]);
            }
            assert(is_ascending(fewer)) by {
                assert forall|a: int, b: int| 0 <= a < b < fewer.len() implies fewer[a]
                    < fewer[b] by {
                    let ya = if a < k { a } else { a + 1 };
                    let yb = if b < k { b } else { b + 1 };
                    assert(fewer[a] == letters[ya] && fewer[b] == letters[yb]);
                }
            }
            lemma_few(fewer, word, n - 1);
        } else {
            assert forall|x: int| 0 <= x < letters.len() implies occurs_below(
                word,
                n - 1,
                #[trigger] letters[x],
            ) by {
                assert(letters.contains(letters[x]));
                assert(occurs_below(word, n, letters[x]));
                let i = choose|i: int| 0 <= i < n && word[i] == letters[x];
                assert(0 <= i < n - 1 && word[i] == letters[x]);
            }
            lemma_few(letters, word, n - 1);
        }
    }
}

/// The yellow letters of a word stand in ascending order, each once; they
/// are the letters at the yellow positions and no others, so no more than
/// the word has positions.
pub proof fn lemma_yellow_letters(word: Seq<u8>, directives: Seq<Directive>)
    ensures
        is_ascending(yellow_letters(word, directives)),
        yellow_letters(word, directives).len() <= word.len(),
        yellow_letters(word, directives).len() <= 256,
        forall|c: u8| #[trigger]
            yellow_letters(word, directives).contains(c) <==> is_yellow_letter(word, directives, c),
{
    lemma_below(word, directives, 256);
    let all = yellow_letters(word, directives);
    assert forall|k: int| 0 <= k < all.len() implies occurs_below(
        word,
        word.len() as int,
        #[trigger] all[k],
    ) by {
        assert(all.contains(all[k]));
        let i = choose|i: int|
            0 <= i < word.len() && directives[i] == Directive::Yellow && word[i] == all[k];
        assert(0 <= i < word.len() && word[i] == all[k]);
    }
    lemma_few(all, word, word.len() as int);
}

/// An ascending sequence that holds just the letters at the yellow
/// positions is the sequence of the yellow letters: a constraint is a set
/// of letters, written in one way only.
pub proof fn lemma_yellow_letters_unique(
    word: Seq<u8>,
    directives: Seq<Directive>,
    letters: Seq<u8>,
)
    requires
        is_ascending(letters),
        forall|c: u8| #[trigger] letters.contains(c) <==> is_yellow_letter(word, directives, c),
    ensures
        letters == yellow_letters(word, directives),
{
    lemma_only_one(word, directives, 256, letters);
}

/// To have every letter of another constraint and more is a strict order:
/// no constraint is compatible with itself, and compatibility carries over
/// a constraint in between.
pub proof fn lemma_compatible_order(a: Seq<u8>, b: Seq<u8>, c: Seq<u8>)
    ensures
        !compatible(a, a),
        compatible(a, b) && compatible(b, c) ==> compatible(a, c),
        compatible(a, b) ==> !compatible(b, a),
{
    if compatible(a, b) && compatible(b, c) {
        assert forall|i: int| 0 <= i < a.len() implies c.contains(#[trigger] a[i]) by {
            assert(b.contains(a[i]));
            let j = choose|j: int| 0 <= j < b.len() && b[j] == a[i];
            assert(c.contains(b[j]));
        }
    }
}

impl Constraint {
    /// The constraint that a guess and its feedback give: the letters at
    /// the yellow positions.
    pub fn from_word_and_feedback(w: &Word, f: &Feedback) -> (r: Constraint)
        ensures
            r@ == yellow_letters(w@, f@),
            is_ascending(r@),
            r@.len() <= 5,
    {
        broadcast use {lemma_word_len, lemma_feedback_len};

        let mut letters: Vec<u8> = Vec::new();
        let mut i: usize = 0;
        while i < 5
            invariant
                i <= 5,
                w@.len() == 5,
                f@.len() == 5,
                letters@.len() <= i,
                is_ascending(letters@),
                forall|c: u8| #[trigger]
                    letters@.contains(c) <==> exists|j: int|
                        0 <= j < i && f@[j] == Directive::Yellow && w@[j] == c,
            decreases 5 - i,
        {
            if f[i] == Directive::Yellow {
                let c = w[i].char() as u8;
                assert(c == w@[i as int]);
                let ghost before = letters@;
                let mut p: usize = 0;
                while p < letters.len() && letters[p] < c
                    invariant
                        p <= letters.len(),
                        letters@ == before,
                        forall|k: int| 0 <= k < p ==> letters@[k] < c,
                    decreases letters.len() - p,
                {
                    p += 1;
                }
                if p == letters.len() || letters[p] != c {
                    letters.insert(p, c);
                    assert(letters@[p as int] == c);
                    assert forall|k: int| 0 <= k < letters@.len() implies letters@[k] == if k < p {
                        before[k]
                    } else if k == p {
                        c
                    } else {
                        before[k - 1]
                    } by {}
                    assert(is_ascending(letters@)) by {
                        assert forall|a: int, b: int|
                            0 <= a < b < letters@.len() implies letters@[a] < letters@[b] by {
                            if b < p {
                            } else if b == p {
                            } else if a < p {
                                assert(before[a] < c);
                                assert(c <= before[p as int]);
                                assert(before[p as int] <= before[b - 1]);
                            } else if a == p {
                                assert(before[p as int] <= before[b - 1]);
                            } else {
                                assert(before[a - 1] < before[b - 1]);
                            }
                        }
                    }
                    assert forall|x: u8| #[trigger] letters@.contains(x) <==> before.contains(x)
                        || x == c by {
                        if letters@.contains(x) {
                            let k = choose|k: int| 0 <= k < letters@.len() && letters@[k] == x;
                            if k < p {
                                assert(before[k] == x);
                            } else if k > p {
                                assert(before[k - 1] == x);
                            }
                        }
                        if before.contains(x) {
                            let k = choose|k: int| 0 <= k < before.len() && before[k] == x;
                            if k < p {
                                assert(letters@[k] == x);
                            } else {
                                assert(letters@[k + 1] == x);
                            }
                        }
                    }
                } else {
                    assert(letters@.contains(c));
                }
                assert forall|x: u8| #[trigger]
                    letters@.contains(x) <==> exists|j: int|
                        0 <= j < i + 1 && f@[j] == Directive::Yellow && w@[j] == x by {
                    if before.contains(x) {
                        let j = choose|j: int|
                            0 <= j < i && f@[j] == Directive::Yellow && w@[j] == x;
                        assert(0 <= j < i + 1 && f@[j] == Directive::Yellow && w@[j] == x);
                    }
                    if x == c {
                        assert(0 <= i < i + 1 && f@[i as int] == Directive::Yellow && w@[i as int]
                            == x);
                    }
                }
            } else {
                assert forall|x: u8| #[trigger]
                    letters@.contains(x) <==> exists|j: int|
                        0 <= j < i + 1 && f@[j] == Directive::Yellow && w@[j] == x by {
                    if letters@.contains(x) {
                        let j = choose|j: int|
                            0 <= j < i && f@[j] == Directive::Yellow && w@[j] == x;
                        assert(0 <= j < i + 1 && f@[j] == Directive::Yellow && w@[j] == x);
                    }
                }
            }
            i += 1;
        }
        proof {
            lemma_yellow_letters_unique(w@, f@, letters@);
        }
        Constraint { letters }
    }

    /// Whether `c` has every letter of this constraint and more besides.
    pub fn is_compatible(&self, c: &Constraint) -> (r: bool)
        ensures
            r == compatible(self@, c@),
    {
        if c.len() <= self.len() {
            return false;
        }
        let mut i: usize = 0;
        while i < self.letters.len()
            invariant
                i <= self@.len(),
                forall|k: int| 0 <= k < i ==> c@.contains(#[trigger] self@[k]),
            decreases self@.len() - i,
        {
            let x = self.letters[i];
            let mut j: usize = 0;
            let mut found = false;
            while j < c.letters.len() && !found
                invariant
                    j <= c@.len(),
                    found ==> c@.contains(x),
                    !found ==> forall|k: int| 0 <= k < j ==> c@[k] != x,
                decreases c@.len() - j + if found { 0int } else { 1int },
            {
                if c.letters[j] == x {
                    found = true;
                    assert(c@[j as int] == x);
                }
                j += 1;
            }
            if !found {
                assert(!c@.contains(self@[i as int]));
                return false;
            }
            i += 1;
        }
        true
    }

    /// The number of letters.
    pub fn len(&self) -> (r: usize)
        ensures
            r == self@.len(),
    {
        self.letters.len()
    }

    /// The constraint without a letter.
    pub fn empty() -> (r: Constraint)
        ensures
            r@ == Seq::<u8>::empty(),
    {
        Constraint { letters: Vec::new() }
    }

    /// Whether the two constraints hold the same letters.
    pub fn same(&self, c: &Constraint) -> (r: bool)
        ensures
            r == (self@ == c@),
    {
        if self.letters.len() != c.letters.len() {
            return false;
        }
        let mut i: usize = 0;
        while i < self.letters.len()
            invariant
                i <= self@.len(),
                self@.len() == c@.len(),
                forall|k: int| 0 <= k < i ==> self@[k] == c@[k],
            decreases self@.len() - i,
        {
            if self.letters[i] != c.letters[i] {
                return false;
            }
            i += 1;
        }
        assert(self@ =~= c@);
        true
    }

    /// The constraint as text: its letters, in ascending order.
    pub fn to_string(&self) -> (r: String)
        ensures
            r@ == crate::word::letters_text(self@),
    {
        let ghost want = crate::word::letters_text(self@);
        let mut s = String::new();
        let mut i: usize = 0;
        while i < self.letters.len()
            invariant
                i <= self@.len(),
                want == crate::word::letters_text(self@),
                s@ == want.take(i as int),
            decreases self@.len() - i,
        {
            s.push(self.letters[i] as char);
            assert(want.take(i + 1) =~= want.take(i as int).push(self@[i as int] as char));
            i += 1;
        }
        assert(want.take(self@.len() as int) =~= want);
        s
    }
}

} // verus!
