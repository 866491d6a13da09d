//! The table of feedback patterns: every guess against every answer.

use vstd::prelude::*;
use crate::word::Word;
use crate::feedback::{Colors, score, spec_score};

verus! {

/// The matrix holds, for each guess and each answer, the pattern of the one
/// against the other.
pub open spec fn score_table(
    matrix: Seq<Vec<Colors>>,
    guess_words: Seq<Word>,
    answer_words: Seq<Word>,
) -> bool {
    &&& matrix.len() == guess_words.len()
    &&& forall|g: int| 0 <= g < matrix.len() ==> (#[trigger] matrix[g])@.len() == answer_words.len()
    &&& forall|g: int, a: int|
        0 <= g < matrix.len() && 0 <= a < answer_words.len() ==> (#[trigger] matrix[g]@[a])@
            == spec_score(guess_words[g]@, #[trigger] answer_words[a]@)
}

/// Scores every guess against every answer.
#[allow(non_snake_case)]
pub fn computeMatrix(guesses: &[Word], answers: &[Word]) -> (matrix: Vec<Vec<Colors>>)
    ensures
        score_table(matrix@, guesses@, answers@),
{
    let mut matrix: Vec<Vec<Colors>> = Vec::new();
    let n = guesses.len();
    let m = answers.len();
    let mut g: usize = 0;
    while g < n
        invariant
            g <= n,
            n == guesses@.len(),
            m == answers@.len(),
            matrix@.len() == g,
            forall|h: int| 0 <= h < g ==> (#[trigger] matrix@[h])@.len() == m,
            forall|h: int, a: int|
                0 <= h < g && 0 <= a < m ==> (#[trigger] matrix@[h]@[a])@ == spec_score(
                    guesses@[h]@,
                    #[trigger] answers@[a]@,
                ),
        decreases n - g,
    {
        let mut row: Vec<Colors> = Vec::new();
        let mut a: usize = 0;
        while a < m
            invariant
                a <= m,
                g < n,
                n == guesses@.len(),
                m == answers@.len(),
                row@.len() == a,
                forall|b: int|
                    0 <= b < a ==> (#[trigger] row@[b])@ == spec_score(guesses@[g as int]@, answers@[b]@),
            decreases m - a,
        {
            row.push(score(guesses[g], answers[a]));
            a += 1;
        }
        matrix.push(row);
        g += 1;
    }
    matrix
}

} // verus!
