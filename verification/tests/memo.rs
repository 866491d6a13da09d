use wordle_solver::constraint::ConstraintState;
use wordle_solver::matrix::computeMatrix;
use wordle_solver::memo::{candidates_of, solve_from, Memo};
use wordle_solver::search::{indexes, solve, Params};
use wordle_solver::tree::Tree;
use wordle_solver::word::to_word;

fn toy() -> Vec<[u8; 5]> {
    vec![
        to_word("afghi"),
        to_word("jbklm"),
        to_word("abcde"),
        to_word("nocpq"),
        to_word("rstdu"),
    ]
}

fn params() -> Params {
    Params { n_guesses: 20, answers_only: false, starting_word: None, max_depth: 7 }
}

#[test]
fn the_store_computes_once_and_then_remembers() {
    let mut memo = Memo::new();
    assert_eq!(memo.len(), 0);
    let state = ConstraintState::new();
    assert!(memo.lookup(0, &state).is_none());
    let first = memo.get_or_compute(0, &state, || Some(Tree::leaf(to_word("hotel"))));
    assert_eq!(first, Some(Tree::leaf(to_word("hotel"))));
    assert_eq!(memo.len(), 1);
    let second = memo.get_or_compute(0, &state, || Some(Tree::leaf(to_word("silly"))));
    assert_eq!(second, Some(Tree::leaf(to_word("hotel"))));
    assert_eq!(memo.len(), 1);
    assert_eq!(memo.lookup(0, &state), Some(Some(Tree::leaf(to_word("hotel")))));
    // another depth is another key
    let deeper = memo.get_or_compute(1, &state, || None);
    assert_eq!(deeper, None);
    assert_eq!(memo.len(), 2);
    assert_eq!(memo.lookup(1, &state), Some(None));
    // another state is another key
    let other = state.refine(&to_word("silly"), &to_word("bbbbb"));
    assert!(memo.lookup(0, &other).is_none());
    memo.store(0, &other, Some(Tree::leaf(to_word("crane"))));
    assert_eq!(memo.lookup(0, &other), Some(Some(Tree::leaf(to_word("crane")))));
    assert_eq!(memo.len(), 3);
}

#[test]
fn candidates_are_the_admitted_answers_in_order() {
    let words = toy();
    let start = ConstraintState::new();
    assert_eq!(candidates_of(&start, &words), vec![0, 1, 2, 3, 4]);
    let after = start.advance(&to_word("afghi"), &to_word("nocpq"));
    assert_eq!(candidates_of(&after, &words), vec![1, 3, 4]);
    let none = start.refine(&to_word("zzzzz"), &to_word("ggggg"));
    assert!(candidates_of(&none, &words).is_empty());
}

#[test]
fn stored_and_fresh_subtrees_are_the_same() {
    let words = toy();
    let matrix = computeMatrix(&words, &words);
    let pool = indexes(words.len());
    let answer = to_word("nocpq");
    let start = ConstraintState::new();
    // two histories that teach the same
    let one = start.advance(&to_word("afghi"), &answer);
    let other = start.advance(&to_word("ghiaf"), &answer).advance(&to_word("afghi"), &answer);
    let other = if one.same(&other) { other } else { one };
    let mut memo = Memo::new();
    let fresh = solve_from(&params(), 1, &one, &pool, &words, &words, &matrix, &mut memo);
    assert_eq!(memo.len(), 1);
    let stored = solve_from(&params(), 1, &other, &pool, &words, &words, &matrix, &mut memo);
    assert_eq!(memo.len(), 1);
    assert_eq!(fresh, stored);
    let direct = solve(&params(), 1, &pool, &[1, 3, 4], &words, &words, &matrix);
    assert_eq!(fresh, direct);
    assert!(fresh.is_some());
}

#[test]
fn a_state_that_admits_nothing_has_no_tree() {
    let words = toy();
    let matrix = computeMatrix(&words, &words);
    let pool = indexes(words.len());
    let none = ConstraintState::new().refine(&to_word("zzzzz"), &to_word("ggggg"));
    let mut memo = Memo::new();
    let tree = solve_from(&params(), 0, &none, &pool, &words, &words, &matrix, &mut memo);
    assert!(tree.is_none());
    assert_eq!(memo.lookup(0, &none), Some(None));
}
