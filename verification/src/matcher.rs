//! Tests of feedback, position by position.

use crate::feedback::{lemma_feedback_len, Directive, Feedback};
use vstd::prelude::*;

verus! {

/// A test of one directive: that it is a given directive, or that it is not.
#[derive(Copy, Clone, PartialEq, Eq, Debug, Structural)]
pub enum Match {
    Is(Directive),
    IsNot(Directive),
}

impl Match {
    /// Whether the test holds of `d`.
    pub open spec fn accepts(self, d: Directive) -> bool {
        match self {
            Match::Is(x) => d == x,
            Match::IsNot(x) => d != x,
        }
    }

    /// Whether the test holds of `d`.
    pub fn matches(&self, d: Directive) -> (r: bool)
        ensures
            r == self.accepts(d),
    {
        match self {
            Match::Is(x) => d == *x,
            Match::IsNot(x) => d != *x,
        }
    }
}

/// Whether each test holds of the directive at its position.
pub open spec fn accepts_all(tests: Seq<Match>, directives: Seq<Directive>) -> bool {
    forall|i: int| 0 <= i < tests.len() ==> (#[trigger] tests[i]).accepts(directives[i])
}

/// Five tests, one for each position of a feedback.
#[derive(Copy, Clone, Debug)]
pub struct Matcher {
    matches: [Match; 5],
}

impl View for Matcher {
    type V = Seq<Match>;

    closed spec fn view(&self) -> Seq<Match> {
        Seq::new(5, |i: int| self.matches[i])
    }
}

/// Every matcher has five tests.
pub broadcast proof fn lemma_matcher_len(m: Matcher)
    ensures
        #[trigger] m@.len() == 5,
{
}

impl Matcher {
    /// The matcher with the given tests, from the first position to the last.
    pub fn new(a: Match, b: Match, c: Match, d: Match, e: Match) -> (r: Matcher)
        ensures
            r@ == seq![a, b, c, d, e],
    {
        let r = Matcher { matches: [a, b, c, d, e] };
        assert(r@ =~= seq![a, b, c, d, e]);
        r
    }

    /// Whether the feedback passes every test, each at its position.
    pub fn matches(&self, feedback: &Feedback) -> (r: bool)
        ensures
            r == accepts_all(self@, feedback@),
    {
        broadcast use lemma_feedback_len;

        let mut i: usize = 0;
        while i < 5
            invariant
                i <= 5,
                feedback@.len() == 5,
                forall|j: int| 0 <= j < i ==> (#[trigger] self@[j]).accepts(feedback@[j]),
            decreases 5 - i,
        {
            let d = feedback[i];
            if !self.matches[i].matches(d) {
                assert(!self@[i as int].accepts(feedback@[i as int]));
                return false;
            }
            i += 1;
        }
        true
    }
}

} // verus!
