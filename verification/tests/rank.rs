use wordle_solver::matrix::computeMatrix;
use wordle_solver::rank::{is_smaller, quality, rank};
use wordle_solver::word::to_word;

fn toy() -> (Vec<[u8; 5]>, Vec<[u8; 5]>) {
    let answers = vec![
        to_word("abcde"),
        to_word("afghi"),
        to_word("jbklm"),
        to_word("nocpq"),
        to_word("rstdu"),
    ];
    let mut guesses = vec![to_word("zzzzz")];
    guesses.extend(answers.iter().copied());
    (guesses, answers)
}

#[test]
fn quality_counts_unresolved_and_groups() {
    let (guesses, answers) = toy();
    let matrix = computeMatrix(&guesses, &answers);
    let all = [0usize, 1, 2, 3, 4];
    assert_eq!(quality(&matrix[0], &all), (5, 1));
    assert_eq!(quality(&matrix[1], &all), (4, 5));
    assert_eq!(quality(&matrix[2], &all), (4, 3));
}

#[test]
fn fractions_compare_exactly() {
    assert!(is_smaller(4, 5, 4, 3));
    assert!(!is_smaller(4, 3, 4, 5));
    assert!(!is_smaller(2, 3, 4, 6));
    assert!(is_smaller(1, 3, 1, 2));
    assert!(is_smaller(usize::MAX - 1, 243, usize::MAX, 243));
    assert!(is_smaller(usize::MAX - 1, usize::MAX, usize::MAX, usize::MAX));
    assert!(!is_smaller(usize::MAX, usize::MAX, usize::MAX, usize::MAX));
    assert!(is_smaller(usize::MAX, usize::MAX, usize::MAX, usize::MAX - 1));
    assert!(!is_smaller(1, 0, 1, 0));
}

#[test]
fn rank_puts_the_finest_split_first_and_keeps_ties_in_order() {
    let (guesses, answers) = toy();
    let matrix = computeMatrix(&guesses, &answers);
    let pool = [0usize, 1, 2, 3, 4, 5];
    let all = [0usize, 1, 2, 3, 4];
    assert_eq!(rank(&matrix, &pool, &all, 20), vec![1, 2, 3, 4, 5, 0]);
    assert_eq!(rank(&matrix, &pool, &all, 2), vec![1, 2]);
    assert_eq!(rank(&matrix, &[5, 4, 0, 1], &all, 3), vec![1, 5, 4]);
    assert!(rank(&matrix, &pool, &all, 0).is_empty());
    assert!(rank(&matrix, &[], &all, 20).is_empty());
}
