use wordle_solver::matrix::computeMatrix;
use wordle_solver::search::{indexes, solve, Params};
use wordle_solver::tree::Tree;
use wordle_solver::word::to_word;

fn toy() -> Vec<[u8; 5]> {
    vec![
        to_word("afghi"),
        to_word("jbklm"),
        to_word("abcde"),
        to_word("nocpq"),
        to_word("rstdu"),
    ]
}

#[test]
fn a_leaf_is_one_guess_for_one_answer() {
    let leaf = Tree::leaf(to_word("hotel"));
    assert_eq!(leaf.guess, to_word("hotel"));
    assert_eq!(leaf.total_guesses, 1);
    assert_eq!(leaf.max_guesses, 1);
    assert_eq!(leaf.leaf_count, 1);
    assert!(leaf.children.is_empty());
}

#[test]
fn a_leaf_writes_one_line() {
    let mut out: Vec<u8> = b"x".to_vec();
    Tree::leaf(to_word("hotel")).write(&mut out, b"silly,".to_vec());
    assert_eq!(out, b"xsilly,hotel\n".to_vec());
}

#[test]
fn a_tree_writes_one_line_for_each_answer() {
    let words = toy();
    let matrix = computeMatrix(&words, &words);
    let pool = indexes(words.len());
    let p = Params { n_guesses: 20, answers_only: false, starting_word: None, max_depth: 7 };
    let tree = solve(&p, 0, &pool, &pool, &words, &words, &matrix).unwrap();
    let mut out: Vec<u8> = Vec::new();
    tree.write(&mut out, Vec::new());
    let text = String::from_utf8(out).unwrap();
    // the branches come in the order of their pattern codes:
    // gbbbb (2), bgbbb (6), bbgbb (18), bbbgb (54), ggggg (242)
    assert_eq!(
        text,
        "abcde,afghi\nabcde,jbklm\nabcde,nocpq\nabcde,rstdu\nabcde,abcde\n"
    );
}

#[test]
fn a_duplicate_holds_the_same() {
    let words = toy();
    let matrix = computeMatrix(&words, &words);
    let pool = indexes(words.len());
    let p = Params {
        n_guesses: 20,
        answers_only: false,
        starting_word: Some(to_word("afghi")),
        max_depth: 7,
    };
    let tree = solve(&p, 0, &pool, &pool, &words, &words, &matrix).unwrap();
    let copy = tree.duplicate();
    assert_eq!(copy, tree);
}

fn play(tree: &Tree, answer: [u8; 5]) -> usize {
    let mut node = tree;
    let mut used = 1;
    while node.guess != answer {
        let colors = wordle_solver::feedback::score(node.guess, answer);
        let next = node.children.iter().find(|c| c.0 == colors);
        node = &next.unwrap().1;
        used += 1;
    }
    used
}

#[test]
fn playing_the_tree_finds_every_answer_within_its_counts() {
    let words = vec![
        to_word("crane"),
        to_word("crank"),
        to_word("crate"),
        to_word("brake"),
        to_word("grace"),
        to_word("slate"),
        to_word("plate"),
        to_word("place"),
        to_word("silly"),
        to_word("daily"),
        to_word("hotel"),
    ];
    let matrix = computeMatrix(&words, &words);
    let pool = indexes(words.len());
    for n_guesses in [1usize, 2, 20] {
        let p = Params { n_guesses, answers_only: false, starting_word: None, max_depth: 7 };
        let tree = solve(&p, 0, &pool, &pool, &words, &words, &matrix).unwrap();
        let mut total = 0;
        let mut most = 0;
        for w in &words {
            let used = play(&tree, *w);
            total += used;
            most = most.max(used);
        }
        assert_eq!(total, tree.total_guesses);
        assert_eq!(most, tree.max_guesses);
        assert_eq!(tree.leaf_count, words.len());
    }
}

#[test]
fn a_child_is_found_by_its_pattern() {
    let words = toy();
    let matrix = computeMatrix(&words, &words);
    let pool = indexes(words.len());
    let p = Params { n_guesses: 20, answers_only: false, starting_word: None, max_depth: 7 };
    let tree = solve(&p, 0, &pool, &pool, &words, &words, &matrix).unwrap();
    assert_eq!(tree.child(&to_word("bgbbb")).unwrap().guess, to_word("jbklm"));
    assert_eq!(tree.child(&to_word("ggggg")).unwrap().guess, to_word("abcde"));
    assert!(tree.child(&to_word("yyyyy")).is_none());
    assert!(Tree::leaf(to_word("abcde")).child(&to_word("ggggg")).is_none());
}

fn many_words(count: usize) -> Vec<[u8; 5]> {
    let mut words: Vec<[u8; 5]> = Vec::new();
    let mut seed: u32 = 12345;
    while words.len() < count {
        let mut w = [0u8; 5];
        for c in w.iter_mut() {
            seed = seed.wrapping_mul(1103515245).wrapping_add(12345);
            *c = b'a' + ((seed >> 16) % 8) as u8;
        }
        if !words.contains(&w) {
            words.push(w);
        }
    }
    words
}

#[test]
fn a_larger_game_is_solved_the_same_way_every_time() {
    let words = many_words(120);
    let answers: Vec<[u8; 5]> = words[..80].to_vec();
    let matrix = computeMatrix(&words, &answers);
    let pool = indexes(words.len());
    let all = indexes(answers.len());
    let p = Params { n_guesses: 3, answers_only: false, starting_word: None, max_depth: 7 };
    let tree = solve(&p, 0, &pool, &all, &words, &answers, &matrix).unwrap();
    let again = solve(&p, 0, &pool, &all, &words, &answers, &matrix).unwrap();
    assert_eq!(tree, again);
    let mut total = 0;
    let mut most = 0;
    for w in &answers {
        let used = play(&tree, *w);
        total += used;
        most = most.max(used);
    }
    assert_eq!(total, tree.total_guesses);
    assert_eq!(most, tree.max_guesses);
    assert_eq!(tree.leaf_count, answers.len());
    let mut out: Vec<u8> = Vec::new();
    tree.write(&mut out, Vec::new());
    assert_eq!(out.iter().filter(|b| **b == b'\n').count(), answers.len());
    // the same tree one level down, where the guesses are tried one after the other
    let mut deeper = p;
    deeper.max_depth = 9;
    let at_two = solve(&deeper, 2, &pool, &all, &words, &answers, &matrix).unwrap();
    let mut shifted = p;
    shifted.max_depth = 8;
    let at_one = solve(&shifted, 1, &pool, &all, &words, &answers, &matrix).unwrap();
    assert_eq!(at_two, at_one);
}

fn patterns_differ(tree: &Tree) -> bool {
    for (i, a) in tree.children.iter().enumerate() {
        for b in &tree.children[i + 1..] {
            if a.0 == b.0 {
                return false;
            }
        }
        if !patterns_differ(&a.1) {
            return false;
        }
    }
    true
}

#[test]
fn no_pattern_has_two_branches() {
    let words = many_words(60);
    let matrix = computeMatrix(&words, &words);
    let pool = indexes(words.len());
    let p = Params { n_guesses: 2, answers_only: false, starting_word: None, max_depth: 7 };
    let tree = solve(&p, 0, &pool, &pool, &words, &words, &matrix).unwrap();
    assert!(patterns_differ(&tree));
    for (colors, sub) in &tree.children {
        assert_eq!(tree.child(colors).unwrap(), sub);
    }
}
