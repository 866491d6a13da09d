//! A decision-tree builder for a five-letter word deduction game.
//!
//! Given a vocabulary of allowed guesses and a closed set of possible hidden
//! answers, the library builds a tree that says, for every answer, which word
//! to guess next after each feedback pattern.
//!
//! - [`word`]: words and how they are read.
//! - [`feedback`]: the pattern of marks that a guess gets against an answer.
//! - [`partition`]: the candidates grouped by the pattern a guess would get.
//! - [`rank`]: the guesses ordered by how finely they divide the candidates.
//! - [`tree`]: the decision tree and its text form.
//! - [`matrix`]: the table of all patterns, computed once.
//! - [`search`]: the search itself.
//! - [`strategy`]: what a tree that the search returns is worth to a player.
//! - [`constraint`]: what the feedback seen so far says about the answer.
//! - [`memo`]: a store that shares subtrees between equal states of knowledge.
//! - [`vocab`]: word lists.

pub mod word;
pub mod feedback;
pub mod partition;
pub mod rank;
pub mod tree;
pub mod matrix;
pub mod search;
pub mod strategy;
pub mod constraint;
pub mod memo;
pub mod vocab;
