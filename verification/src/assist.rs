//! The strategy of the two tools: guesses that have the first and the last
//! letter of the solution right and none of the letters between them.

use crate::feedback::{Directive, Feedback};
use crate::matcher::{Match, Matcher};
use crate::select::{find_guesses, reachable, scored, selection, survivors, Scored};
use crate::word::{lettered, Word};
use vstd::prelude::*;

verus! {

/// How many assist guesses are looked for before the solution itself.
pub const ASSISTS: usize = 5;

/// The tests of the strategy: green at the first and at the last position,
/// not green at the three between them.
pub open spec fn assist_tests() -> Seq<Match> {
    seq![
        Match::Is(Directive::Green),
        Match::IsNot(Directive::Green),
        Match::IsNot(Directive::Green),
        Match::IsNot(Directive::Green),
        Match::Is(Directive::Green),
    ]
}

/// The words of the pool that the strategy admits for a solution, each with
/// its feedback.
pub open spec fn admitted(pool: Seq<Seq<u8>>, solution: Seq<u8>) -> Seq<Scored> {
    survivors(pool, solution, assist_tests())
}

/// The matcher of the strategy.
pub fn assist_matcher() -> (r: Matcher)
    ensures
        r@ == assist_tests(),
{
    Matcher::new(
        Match::Is(Directive::Green),
        Match::IsNot(Directive::Green),
        Match::IsNot(Directive::Green),
        Match::IsNot(Directive::Green),
        Match::Is(Directive::Green),
    )
}

/// The assist guesses for a solution: up to five of the words of the pool
/// that the strategy admits.
pub fn assist_guesses(pool: &[Word], solution: &Word) -> (r: Vec<(Word, Feedback)>)
    ensures
        scored(r@) == selection(admitted(lettered(pool@), solution@), ASSISTS as nat),
        r@.len() <= ASSISTS,
        r@.len() < ASSISTS ==> scored(r@) == reachable(admitted(lettered(pool@), solution@)),
{
    let matcher = assist_matcher();
    find_guesses(pool, solution, &matcher, ASSISTS)
}

/// The number of guesses that a solution takes: the assist guesses, and the
/// solution itself as the last one.
pub fn guess_count(selected: &[(Word, Feedback)]) -> (r: usize)
    requires
        selected@.len() < usize::MAX,
    ensures
        r == selected@.len() + 1,
{
    selected.len() + 1
}

} // verus!
