use wordle_solver::matrix::computeMatrix;
use wordle_solver::search::{
    assemble, best_of, check_shape, evaluate, indexes, pick, position, search, solve, Params,
    SearchError, DEFAULT_MAX_DEPTH, DEFAULT_N_GUESSES,
};
use wordle_solver::partition::partition;
use wordle_solver::tree::Tree;
use wordle_solver::word::to_word;

fn params() -> Params {
    Params {
        n_guesses: DEFAULT_N_GUESSES,
        answers_only: false,
        starting_word: None,
        max_depth: DEFAULT_MAX_DEPTH,
    }
}

fn toy() -> Vec<[u8; 5]> {
    vec![
        to_word("afghi"),
        to_word("jbklm"),
        to_word("abcde"),
        to_word("nocpq"),
        to_word("rstdu"),
    ]
}

#[test]
fn a_single_candidate_is_a_leaf() {
    let words = toy();
    let matrix = computeMatrix(&words, &words);
    let pool = indexes(words.len());
    for depth in 0..DEFAULT_MAX_DEPTH {
        let tree = solve(&params(), depth, &pool, &[3], &words, &words, &matrix).unwrap();
        assert_eq!(tree, Tree::leaf(to_word("nocpq")));
        assert_eq!(tree.total_guesses, 1);
        assert_eq!(tree.max_guesses, 1);
        assert_eq!(tree.leaf_count, 1);
        assert!(tree.children.is_empty());
    }
}

#[test]
fn no_tree_from_the_depth_bound_on() {
    let words = toy();
    let matrix = computeMatrix(&words, &words);
    let pool = indexes(words.len());
    assert!(solve(&params(), 7, &pool, &[3], &words, &words, &matrix).is_none());
    assert!(solve(&params(), 9, &pool, &[0, 1], &words, &words, &matrix).is_none());
}

#[test]
fn depth_bound_one_cannot_tell_two_candidates_apart() {
    let words = toy();
    let matrix = computeMatrix(&words, &words);
    let pool = indexes(words.len());
    let mut p = params();
    p.max_depth = 1;
    assert!(solve(&p, 0, &pool, &[0, 1], &words, &words, &matrix).is_none());
    assert!(solve(&p, 0, &pool, &[0, 1, 2, 3, 4], &words, &words, &matrix).is_none());
    assert!(solve(&p, 0, &pool, &[2], &words, &words, &matrix).is_some());
}

#[test]
fn the_word_that_splits_all_others_is_chosen() {
    let words = toy();
    let matrix = computeMatrix(&words, &words);
    let pool = indexes(words.len());
    let all = indexes(words.len());
    let tree = solve(&params(), 0, &pool, &all, &words, &words, &matrix).unwrap();
    assert_eq!(tree.guess, to_word("abcde"));
    assert_eq!(tree.max_guesses, 2);
    assert_eq!(tree.total_guesses, 9);
    assert_eq!(tree.leaf_count, 5);
    assert_eq!(tree.children.len(), 5);
    let mut leaves: Vec<[u8; 5]> = Vec::new();
    for (_, child) in &tree.children {
        assert!(child.children.is_empty());
        assert_eq!(child.max_guesses, 1);
        leaves.push(child.guess);
    }
    leaves.sort();
    let mut expected = words.clone();
    expected.sort();
    assert_eq!(leaves, expected);
    assert_eq!(tree.children[4].0, to_word("ggggg"));
    assert_eq!(tree.children[4].1.guess, to_word("abcde"));
}

#[test]
fn two_runs_give_the_same_tree() {
    let words = toy();
    let matrix = computeMatrix(&words, &words);
    let pool = indexes(words.len());
    let all = indexes(words.len());
    let mut p = params();
    p.starting_word = Some(to_word("afghi"));
    let first = solve(&p, 0, &pool, &all, &words, &words, &matrix);
    let second = solve(&p, 0, &pool, &all, &words, &words, &matrix);
    assert!(first.is_some());
    assert_eq!(first, second);
    let deep_first = solve(&p, 3, &pool, &all, &words, &words, &matrix);
    let deep_second = solve(&p, 3, &pool, &all, &words, &words, &matrix);
    assert_eq!(deep_first, deep_second);
}

#[test]
fn a_fixed_first_guess_is_the_root() {
    let words = toy();
    let matrix = computeMatrix(&words, &words);
    let pool = indexes(words.len());
    let all = indexes(words.len());
    let mut p = params();
    p.starting_word = Some(to_word("afghi"));
    let tree = solve(&p, 0, &pool, &all, &words, &words, &matrix).unwrap();
    assert_eq!(tree.guess, to_word("afghi"));
    assert_eq!(tree.leaf_count, 5);
    // afghi itself 1, abcde 2, and six more for the other three whichever way:
    // the first-ranked of the equally cheap guesses for them is jbklm
    assert_eq!(tree.total_guesses, 1 + 2 + 3 + 6);
    assert_eq!(tree.max_guesses, 4);
    assert_eq!(tree.children[0].0, to_word("bbbbb"));
    assert_eq!(tree.children[0].1.guess, to_word("jbklm"));
    let below = solve(&p, 1, &pool, &all, &words, &words, &matrix).unwrap();
    assert_eq!(below.guess, to_word("abcde"));
}

#[test]
fn sequential_and_parallel_levels_agree() {
    let words = toy();
    let matrix = computeMatrix(&words, &words);
    let pool = indexes(words.len());
    let all = indexes(words.len());
    let shallow = solve(&params(), 1, &pool, &all, &words, &words, &matrix).unwrap();
    let deep = solve(&params(), 2, &pool, &all, &words, &words, &matrix).unwrap();
    assert_eq!(shallow, deep);
    let at_zero = evaluate(&params(), 0, &pool, &all, &words, &words, &matrix, 0).unwrap();
    let at_three = evaluate(&params(), 3, &pool, &all, &words, &words, &matrix, 0).unwrap();
    assert_eq!(at_zero, at_three);
}

#[test]
fn no_guess_to_try_means_no_tree() {
    let words = toy();
    let matrix = computeMatrix(&words, &words);
    let all = indexes(words.len());
    assert!(solve(&params(), 0, &[], &all, &words, &words, &matrix).is_none());
    let mut p = params();
    p.n_guesses = 0;
    let pool = indexes(words.len());
    assert!(solve(&p, 0, &pool, &all, &words, &words, &matrix).is_none());
}

#[test]
fn assemble_adds_up_the_subtrees() {
    let words = toy();
    let matrix = computeMatrix(&words, &words);
    let buckets = partition(&matrix[0], &[0, 1, 2]);
    assert_eq!(buckets.len(), 3);
    let children = vec![
        Some(Tree::leaf(words[1])),
        Some(Tree::leaf(words[2])),
        Some(Tree::leaf(words[0])),
    ];
    let tree = assemble(words[0], 3, &buckets, children).unwrap();
    assert_eq!(tree.guess, words[0]);
    assert_eq!(tree.total_guesses, 5);
    assert_eq!(tree.max_guesses, 2);
    assert_eq!(tree.leaf_count, 3);
    assert_eq!(tree.children.len(), 3);
    assert_eq!(tree.children[0].0, to_word("bbbbb"));
    let missing = vec![Some(Tree::leaf(words[1])), None, Some(Tree::leaf(words[0]))];
    assert!(assemble(words[0], 3, &buckets, missing).is_none());
}

#[test]
fn pick_prefers_fewer_guesses_and_then_the_earlier() {
    let mut cheap = Tree::leaf(to_word("abcde"));
    cheap.total_guesses = 3;
    let mut dear = Tree::leaf(to_word("afghi"));
    dear.total_guesses = 4;
    let mut tie = Tree::leaf(to_word("jbklm"));
    tie.total_guesses = 3;
    assert_eq!(pick(None, None), None);
    assert_eq!(pick(None, Some(Tree::leaf(to_word("abcde")))).unwrap().guess, to_word("abcde"));
    assert_eq!(pick(Some(Tree::leaf(to_word("abcde"))), None).unwrap().guess, to_word("abcde"));
    let mut a = Tree::leaf(to_word("abcde"));
    a.total_guesses = 3;
    let mut b = Tree::leaf(to_word("afghi"));
    b.total_guesses = 4;
    assert_eq!(pick(Some(b), Some(a)).unwrap().guess, to_word("abcde"));
    assert_eq!(pick(Some(cheap), Some(tie)).unwrap().guess, to_word("abcde"));
    assert_eq!(pick(Some(dear), None).unwrap().total_guesses, 4);
}

#[test]
fn position_finds_the_first_copy() {
    let words = vec![to_word("afghi"), to_word("abcde"), to_word("afghi")];
    assert_eq!(position(&words, &to_word("afghi")), 0);
    assert_eq!(position(&words, &to_word("abcde")), 1);
    assert_eq!(position(&words, &to_word("zzzzz")), 3);
}

#[test]
fn search_tells_why_it_cannot_start() {
    let words = toy();
    let matrix = computeMatrix(&words, &words);
    assert_eq!(search(&params(), &words, &[], &matrix), Err(SearchError::NoAnswers));
    let short = computeMatrix(&words[..2], &words);
    assert_eq!(search(&params(), &words, &words, &short), Err(SearchError::Matrix));
    let narrow = computeMatrix(&words, &words[..2]);
    assert_eq!(search(&params(), &words, &words, &narrow), Err(SearchError::Matrix));
    let mut huge = params();
    huge.max_depth = usize::MAX;
    assert_eq!(search(&huge, &words, &words, &matrix), Err(SearchError::TooLarge));
    let mut unknown = params();
    unknown.starting_word = Some(to_word("zzzzz"));
    assert_eq!(search(&unknown, &words, &words, &matrix), Err(SearchError::StartingWord));
}

#[test]
fn search_solves_the_whole_game() {
    let words = toy();
    let matrix = computeMatrix(&words, &words);
    let found = search(&params(), &words, &words, &matrix).unwrap().unwrap();
    assert_eq!(found.guess, to_word("abcde"));
    assert_eq!(found.total_guesses, 9);
    let pool = indexes(words.len());
    let direct = solve(&params(), 0, &pool, &pool, &words, &words, &matrix).unwrap();
    assert_eq!(found, direct);
}

#[test]
fn the_usual_settings() {
    let p = Params::default();
    assert_eq!(p.n_guesses, 20);
    assert!(!p.answers_only);
    assert_eq!(p.starting_word, None);
    assert_eq!(p.max_depth, 7);
    assert_eq!(p, params());
}

#[test]
fn best_of_takes_the_first_of_the_cheapest() {
    let mut a = Tree::leaf(to_word("abcde"));
    a.total_guesses = 5;
    let mut b = Tree::leaf(to_word("afghi"));
    b.total_guesses = 3;
    let mut c = Tree::leaf(to_word("jbklm"));
    c.total_guesses = 3;
    let best = best_of(vec![None, Some(a), Some(b), None, Some(c)]).unwrap();
    assert_eq!(best.guess, to_word("afghi"));
    assert_eq!(best_of(vec![None, None]), None);
    assert_eq!(best_of(vec![]), None);
}

#[test]
fn the_shape_of_a_matrix_is_checked_row_by_row() {
    let words = toy();
    let matrix = computeMatrix(&words, &words);
    assert!(check_shape(&matrix, 5, 5));
    assert!(check_shape(&matrix, 5, 3));
    assert!(!check_shape(&matrix, 4, 5));
    assert!(!check_shape(&matrix, 5, 6));
    assert_eq!(indexes(3), vec![0, 1, 2]);
    assert!(indexes(0).is_empty());
}

#[test]
fn candidates_with_the_same_word_cannot_be_told_apart() {
    let words = vec![to_word("abcde"), to_word("abcde"), to_word("afghi")];
    let matrix = computeMatrix(&words, &words);
    let pool = indexes(words.len());
    assert!(solve(&params(), 0, &pool, &[0, 1], &words, &words, &matrix).is_none());
    assert!(solve(&params(), 0, &pool, &[0, 2], &words, &words, &matrix).is_some());
}
