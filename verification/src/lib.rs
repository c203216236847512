//! Opening guesses for a daily five-letter word puzzle: the word and feedback
//! model, the puzzle's scoring rule, a greedy selection of assist guesses, the
//! extraction of the word lists from the puzzle's page, and the statistics of
//! a run over every known answer.

pub mod assist;
pub mod constraint;
pub mod error;
pub mod feedback;
pub mod json;
pub mod matcher;
pub mod nytimes;
pub mod select;
pub mod stats;
pub mod text;
pub mod word;

pub use assist::{assist_guesses, assist_matcher, guess_count, ASSISTS};
pub use constraint::Constraint;
pub use error::WordleError;
pub use feedback::{Directive, Feedback};
pub use matcher::{Match, Matcher};
pub use select::{find_guesses, next_group_of_guesses, select, Group};
pub use word::{Char, Word, WORD_SIZE};
