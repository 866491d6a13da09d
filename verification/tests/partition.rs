use wordle_solver::matrix::computeMatrix;
use wordle_solver::partition::partition;
use wordle_solver::word::to_word;

#[test]
fn partition_groups_by_pattern_in_code_order() {
    let guesses = vec![to_word("abcde")];
    let answers = vec![
        to_word("abcde"),
        to_word("afghi"),
        to_word("jklmn"),
        to_word("opqrs"),
        to_word("axxxx"),
    ];
    let matrix = computeMatrix(&guesses, &answers);
    let buckets = partition(&matrix[0], &[0, 1, 2, 3, 4]);
    assert_eq!(buckets.len(), 3);
    assert_eq!(buckets[0].colors, to_word("bbbbb"));
    assert_eq!(buckets[0].answers, vec![2, 3]);
    assert_eq!(buckets[1].colors, to_word("gbbbb"));
    assert_eq!(buckets[1].answers, vec![1, 4]);
    assert_eq!(buckets[2].colors, to_word("ggggg"));
    assert_eq!(buckets[2].answers, vec![0]);
}

#[test]
fn partition_is_exact_on_a_subset() {
    let guesses = vec![to_word("crane")];
    let answers = vec![
        to_word("crank"),
        to_word("crate"),
        to_word("brake"),
        to_word("grace"),
        to_word("slate"),
    ];
    let matrix = computeMatrix(&guesses, &answers);
    let candidates = [4usize, 0, 2];
    let buckets = partition(&matrix[0], &candidates);
    let mut seen: Vec<usize> = Vec::new();
    for b in &buckets {
        assert!(!b.answers.is_empty());
        for a in &b.answers {
            assert!(candidates.contains(a));
            assert!(!seen.contains(a));
            assert_eq!(matrix[0][*a], b.colors);
            seen.push(*a);
        }
    }
    assert_eq!(seen.len(), candidates.len());
}

#[test]
fn partition_of_nothing_is_empty() {
    let guesses = vec![to_word("crane")];
    let answers = vec![to_word("crank")];
    let matrix = computeMatrix(&guesses, &answers);
    assert!(partition(&matrix[0], &[]).is_empty());
}

#[test]
fn matrix_holds_every_score() {
    let guesses = vec![to_word("silly"), to_word("hotel")];
    let answers = vec![to_word("hotel"), to_word("daily"), to_word("silly")];
    let matrix = computeMatrix(&guesses, &answers);
    assert_eq!(matrix.len(), 2);
    assert_eq!(matrix[0].len(), 3);
    assert_eq!(matrix[0][0], to_word("bbybb"));
    assert_eq!(matrix[0][1], to_word("bybgg"));
    assert_eq!(matrix[0][2], to_word("ggggg"));
    assert_eq!(matrix[1][0], to_word("ggggg"));
}
