//! The search for a decision tree.
//!
//! At each node the best few guesses are tried. A guess divides the
//! candidates into groups by feedback, each group is solved one level deeper,
//! and the guess that needs the fewest guesses in total over all candidates
//! wins. A branch that reaches the depth bound yields no tree, and the guess
//! that led there is dropped.

use vstd::prelude::*;
use rayon::iter::{IntoParallelRefIterator, ParallelIterator};
use crate::word::{Word, same_word};
use crate::feedback::{Colors, ALL_GREEN_CODE, scoreToInt};
use crate::partition::{
    Bucket,
    Group,
    CODES,
    group_code,
    lemma_groups_below,
    lemma_members_code,
    lemma_partition_exact,
    partition,
    same_groups,
    spec_partition,
    total_size,
};
use crate::rank::{covers, lemma_rank_in_order, rank, rows_of, spec_rank};
use crate::tree::{Node, Tree, leaf_node, lemma_branches_well_keyed, well_keyed};
use crate::matrix::score_table;
use crate::strategy::{lemma_score_table_is_fair, lemma_tree_finds_every_candidate, plays};

verus! {

/// The depth bound used when nothing else is asked for.
pub const DEFAULT_MAX_DEPTH: usize = 7;

/// The number of guesses tried at each node when nothing else is asked for.
pub const DEFAULT_N_GUESSES: usize = 20;

/// The settings of a search.
#[derive(Debug, Clone, Copy, PartialEq, Eq)]
pub struct Params {
    /// How many of the best-ranked guesses are tried at each node.
    pub n_guesses: usize,
    /// Whether only answers may be guessed.
    pub answers_only: bool,
    /// The first guess, where it is fixed in advance.
    pub starting_word: Option<Word>,
    /// The depth from which on no tree is built.
    pub max_depth: usize,
}

impl Default for Params {
    /// The usual settings: the best 20 guesses at each node, any word as a
    /// guess, no fixed first guess, and no tree deeper than 7 guesses.
    fn default() -> (params: Params)
        ensures
            params.n_guesses == DEFAULT_N_GUESSES,
            !params.answers_only,
            params.starting_word is None,
            params.max_depth == DEFAULT_MAX_DEPTH,
    {
        Params {
            n_guesses: DEFAULT_N_GUESSES,
            answers_only: false,
            starting_word: None,
            max_depth: DEFAULT_MAX_DEPTH,
        }
    }
}

/// Everything that stays the same during one search.
pub struct Game {
    /// For each guess, its pattern against each answer.
    pub rows: Seq<Seq<Colors>>,
    /// The vocabulary of guesses.
    pub guess_words: Seq<Word>,
    /// The vocabulary of answers.
    pub answer_words: Seq<Word>,
    /// The guesses that may be tried, as indices into the vocabulary.
    pub guesses: Seq<usize>,
    /// How many guesses are tried at each node.
    pub limit: nat,
    /// The first guess, where it is fixed.
    pub opening: Option<Word>,
    /// The depth from which on no tree is built.
    pub max_depth: nat,
}

/// The game that a call of `solve` plays.
pub open spec fn game_of(
    params: Params,
    guesses: Seq<usize>,
    guess_words: Seq<Word>,
    answer_words: Seq<Word>,
    matrix: Seq<Vec<Colors>>,
) -> Game {
    Game {
        rows: rows_of(matrix),
        guess_words,
        answer_words,
        guesses,
        limit: params.n_guesses as nat,
        opening: params.starting_word,
        max_depth: params.max_depth as nat,
    }
}

/// The first position from `from` on that holds `w`, or the length where none does.
pub open spec fn index_from(words: Seq<Word>, w: Word, from: int) -> int
    decreases words.len() - from,
{
    if from < 0 || from >= words.len() {
        words.len() as int
    } else if words[from]@ == w@ {
        from
    } else {
        index_from(words, w, from + 1)
    }
}

/// What a search result holds.
pub open spec fn outcome(t: Option<Tree>) -> Option<Node> {
    match t {
        Some(t) => Some(t@),
        None => None,
    }
}

/// What a list of search results holds.
pub open spec fn outcomes_of(children: Seq<Option<Tree>>) -> Seq<Option<Node>> {
    Seq::new(children.len(), |i: int| outcome(children[i]))
}

/// What a list of buckets holds.
pub open spec fn groups_of(buckets: Seq<Bucket>) -> Seq<Group> {
    Seq::new(buckets.len(), |i: int| buckets[i]@)
}

/// The guesses needed below a node, added up over the first `n` groups. The
/// group with five green marks is resolved by the node's own guess and adds
/// nothing.
pub open spec fn burden(groups: Seq<Group>, found: Seq<Option<Node>>, n: int) -> nat
    decreases n,
{
    if n <= 0 {
        0
    } else {
        burden(groups, found, n - 1) + if group_code(groups[n - 1]) != ALL_GREEN_CODE && found[n
            - 1] is Some {
            found[n - 1].unwrap().total
        } else {
            0
        }
    }
}

/// The answers below the first `n` subtrees.
pub open spec fn leaf_sum(found: Seq<Option<Node>>, n: int) -> nat
    decreases n,
{
    if n <= 0 {
        0
    } else {
        leaf_sum(found, n - 1) + if found[n - 1] is Some {
            found[n - 1].unwrap().leaves
        } else {
            0
        }
    }
}

/// The largest `max` among the first `n` subtrees.
pub open spec fn deepest(found: Seq<Option<Node>>, n: int) -> nat
    decreases n,
{
    if n <= 0 {
        0
    } else {
        let before = deepest(found, n - 1);
        if found[n - 1] is Some && found[n - 1].unwrap().max > before {
            found[n - 1].unwrap().max
        } else {
            before
        }
    }
}

/// Every group has a subtree.
pub open spec fn all_found(found: Seq<Option<Node>>) -> bool {
    forall|i: int| 0 <= i < found.len() ==> (#[trigger] found[i]) is Some
}

/// The node for a guess whose groups have these subtrees, or nothing where a
/// group has none.
pub open spec fn spec_assemble(
    guess: Word,
    n_answers: nat,
    groups: Seq<Group>,
    found: Seq<Option<Node>>,
) -> Option<Node> {
    if all_found(found) {
        Some(
            Node {
                guess,
                total: n_answers + burden(groups, found, found.len() as int),
                max: 1 + deepest(found, found.len() as int),
                leaves: leaf_sum(found, found.len() as int),
                children: Seq::new(found.len(), |i: int| (groups[i].colors, found[i].unwrap())),
            },
        )
    } else {
        None
    }
}

/// The better of two results: the one with fewer guesses in total, the
/// earlier one where they need the same.
pub open spec fn spec_pick(before: Option<Node>, next: Option<Node>) -> Option<Node> {
    match (before, next) {
        (None, _) => next,
        (Some(_), None) => before,
        (Some(b), Some(c)) => if c.total < b.total {
            next
        } else {
            before
        },
    }
}

/// The guesses that are tried at a node.
pub open spec fn spec_candidates(game: Game, depth: nat, answers: Seq<usize>) -> Seq<usize> {
    if depth == 0 && game.opening is Some {
        seq![index_from(game.guess_words, game.opening.unwrap(), 0) as usize]
    } else {
        spec_rank(game.rows, answers, game.guesses, game.limit)
    }
}

/// The tree for these candidates at this depth, or nothing where none is
/// found within the depth bound.
pub open spec fn spec_solve(game: Game, depth: nat, answers: Seq<usize>) -> Option<Node>
    decreases game.max_depth - depth, 3nat, 0nat,
{
    if depth >= game.max_depth {
        None
    } else if answers.len() == 1 {
        Some(leaf_node(game.answer_words[answers[0] as int]))
    } else {
        let tried = spec_candidates(game, depth, answers);
        spec_best(game, depth, answers, tried, tried.len())
    }
}

/// The best tree among those of the first `n` guesses tried.
pub open spec fn spec_best(
    game: Game,
    depth: nat,
    answers: Seq<usize>,
    tried: Seq<usize>,
    n: nat,
) -> Option<Node>
    decreases game.max_depth - depth, 2nat, n,
{
    if depth >= game.max_depth || n == 0 {
        None
    } else {
        spec_pick(
            spec_best(game, depth, answers, tried, (n - 1) as nat),
            spec_evaluate(game, depth, answers, tried[n - 1]),
        )
    }
}

/// The tree that starts with guess `g`, or nothing where a group of
/// candidates has no tree one level deeper.
pub open spec fn spec_evaluate(game: Game, depth: nat, answers: Seq<usize>, g: usize) -> Option<
    Node,
>
    decreases game.max_depth - depth, 1nat, 0nat,
{
    if depth >= game.max_depth {
        None
    } else {
        let groups = spec_partition(game.rows[g as int], answers);
        spec_assemble(
            game.guess_words[g as int],
            answers.len(),
            groups,
            spec_outcomes(game, depth, groups, groups.len()),
        )
    }
}

/// The trees of the first `n` groups, one level deeper.
pub open spec fn spec_outcomes(game: Game, depth: nat, groups: Seq<Group>, n: nat) -> Seq<
    Option<Node>,
>
    decreases game.max_depth - depth, 0nat, n,
{
    if depth >= game.max_depth || n == 0 {
        Seq::empty()
    } else {
        spec_outcomes(game, depth, groups, (n - 1) as nat).push(
            spec_solve(game, depth + 1, groups[n - 1].answers),
        )
    }
}

/// What `solve` asks of its arguments.
///
/// There is a candidate; every index stays within its vocabulary and the
/// matrix; the total of guesses fits the machine; and a fixed first guess
/// belongs to the vocabulary.
pub open spec fn ready(
    params: Params,
    depth: usize,
    guesses: Seq<usize>,
    answers: Seq<usize>,
    guess_words: Seq<Word>,
    answer_words: Seq<Word>,
    matrix: Seq<Vec<Colors>>,
) -> bool {
    &&& answers.len() > 0
    &&& matrix.len() == guess_words.len()
    &&& covers(rows_of(matrix), guesses, answers)
    &&& forall|k: int| 0 <= k < answers.len() ==> #[trigger] answers[k] < answer_words.len()
    &&& answers.len() * params.max_depth <= usize::MAX
    &&& (depth == 0 && params.starting_word is Some) ==> index_from(
        guess_words,
        params.starting_word.unwrap(),
        0,
    ) < guess_words.len()
}

/// The trees of the groups are those that `spec_solve` gives one level deeper.
pub proof fn lemma_outcomes(game: Game, depth: nat, groups: Seq<Group>, n: nat)
    requires
        depth < game.max_depth,
    ensures
        spec_outcomes(game, depth, groups, n).len() == n,
        forall|i: int|
            0 <= i < n ==> #[trigger] spec_outcomes(game, depth, groups, n)[i] == spec_solve(
                game,
                depth + 1,
                groups[i].answers,
            ),
    decreases n,
{
    if n > 0 {
        lemma_outcomes(game, depth, groups, (n - 1) as nat);
    }
}

/// The best of the first `n` guesses is the tree of one of them.
pub proof fn lemma_best_is_tried(
    game: Game,
    depth: nat,
    answers: Seq<usize>,
    tried: Seq<usize>,
    n: nat,
)
    ensures
        spec_best(game, depth, answers, tried, n) is Some ==> exists|k: int|
            0 <= k < n && spec_best(game, depth, answers, tried, n) == #[trigger] spec_evaluate(
                game,
                depth,
                answers,
                tried[k],
            ),
    decreases n,
{
    if depth < game.max_depth && n > 0 {
        lemma_best_is_tried(game, depth, answers, tried, (n - 1) as nat);
        let before = spec_best(game, depth, answers, tried, (n - 1) as nat);
        let next = spec_evaluate(game, depth, answers, tried[n - 1]);
        let out = spec_best(game, depth, answers, tried, n);
        if out is Some {
            if out == next {
            } else {
                assert(out == before);
                let k = choose|k: int|
                    0 <= k < n - 1 && before == #[trigger] spec_evaluate(
                        game,
                        depth,
                        answers,
                        tried[k],
                    );
                assert(out == spec_evaluate(game, depth, answers, tried[k]));
            }
        }
    }
}

/// No tried guess gives a tree with fewer guesses in total than the best.
pub proof fn lemma_best_is_least(
    game: Game,
    depth: nat,
    answers: Seq<usize>,
    tried: Seq<usize>,
    n: nat,
)
    ensures
        forall|k: int|
            0 <= k < n && (#[trigger] spec_evaluate(game, depth, answers, tried[k])) is Some ==> {
                &&& spec_best(game, depth, answers, tried, n) is Some
                &&& spec_best(game, depth, answers, tried, n).unwrap().total <= spec_evaluate(
                    game,
                    depth,
                    answers,
                    tried[k],
                ).unwrap().total
            },
    decreases n,
{
    if n > 0 {
        lemma_best_is_least(game, depth, answers, tried, (n - 1) as nat);
    }
}

/// The size of the first `n` groups.
pub open spec fn size_upto(groups: Seq<Group>, n: int) -> nat
    decreases n,
{
    if n <= 0 {
        0
    } else {
        size_upto(groups, n - 1) + groups[n - 1].answers.len()
    }
}

/// The sizes of all groups, added up either way.
pub proof fn lemma_size_upto(groups: Seq<Group>)
    ensures
        size_upto(groups, groups.len() as int) == total_size(groups),
    decreases groups.len(),
{
    if groups.len() > 0 {
        lemma_size_upto(groups.drop_last());
        lemma_size_upto_prefix(groups, groups.drop_last(), groups.len() - 1);
    }
}

proof fn lemma_size_upto_prefix(a: Seq<Group>, b: Seq<Group>, n: int)
    requires
        n <= a.len(),
        n <= b.len(),
        forall|i: int| 0 <= i < n ==> a[i] == b[i],
    ensures
        size_upto(a, n) == size_upto(b, n),
    decreases n,
{
    if n > 0 {
        lemma_size_upto_prefix(a, b, n - 1);
    }
}

/// Sums over subtrees that each stay within `cap` guesses per answer.
proof fn lemma_sums_bounded(groups: Seq<Group>, found: Seq<Option<Node>>, n: int, cap: nat)
    requires
        0 <= n <= found.len(),
        forall|i: int|
            0 <= i < n && (#[trigger] found[i]) is Some ==> {
                &&& found[i].unwrap().total <= groups[i].answers.len() * cap
                &&& found[i].unwrap().max <= cap
                &&& found[i].unwrap().leaves == groups[i].answers.len()
            },
    ensures
        burden(groups, found, n) <= size_upto(groups, n) * cap,
        deepest(found, n) <= cap,
        leaf_sum(found, n) <= size_upto(groups, n),
        (forall|i: int| 0 <= i < n ==> (#[trigger] found[i]) is Some) ==> leaf_sum(found, n)
            == size_upto(groups, n),
    decreases n,
{
    if n > 0 {
        lemma_sums_bounded(groups, found, n - 1, cap);
        let before = size_upto(groups, n - 1);
        let here = groups[n - 1].answers.len();
        assert((before + here) * cap == before * cap + here * cap) by (nonlinear_arith);
        assert(found[n - 1] is Some ==> found[n - 1].unwrap().total <= here * cap);
    }
}

/// Partial sums never exceed the full ones.
proof fn lemma_sums_grow(groups: Seq<Group>, found: Seq<Option<Node>>, m: int, n: int)
    requires
        m <= n,
    ensures
        burden(groups, found, m) <= burden(groups, found, n),
        leaf_sum(found, m) <= leaf_sum(found, n),
        deepest(found, m) <= deepest(found, n),
    decreases n - m,
{
    if m < n {
        lemma_sums_grow(groups, found, m, n - 1);
    }
}

/// What a tree found for some candidates costs: at most as many guesses for
/// each answer as there are levels left, and one leaf for each candidate.
pub proof fn lemma_solve_bounds(game: Game, depth: nat, answers: Seq<usize>)
    ensures
        spec_solve(game, depth, answers) matches Some(t) ==> {
            &&& depth < game.max_depth
            &&& t.total <= answers.len() * (game.max_depth - depth)
            &&& 1 <= t.max <= game.max_depth - depth
            &&& t.leaves == answers.len()
        },
    decreases game.max_depth - depth, 1nat,
{
    if depth < game.max_depth {
        if answers.len() == 1 {
            assert(1 <= 1 * (game.max_depth - depth)) by (nonlinear_arith)
                requires
                    game.max_depth - depth >= 1,
            ;
        } else {
            let tried = spec_candidates(game, depth, answers);
            lemma_best_is_tried(game, depth, answers, tried, tried.len());
            if spec_solve(game, depth, answers) is Some {
                let k = choose|k: int|
                    0 <= k < tried.len() && spec_best(game, depth, answers, tried, tried.len())
                        == #[trigger] spec_evaluate(game, depth, answers, tried[k]);
                lemma_evaluate_bounds(game, depth, answers, tried[k]);
            }
        }
    }
}

/// The same for the tree that starts with a given guess.
pub proof fn lemma_evaluate_bounds(game: Game, depth: nat, answers: Seq<usize>, g: usize)
    ensures
        spec_evaluate(game, depth, answers, g) matches Some(t) ==> {
            &&& depth < game.max_depth
            &&& t.total <= answers.len() * (game.max_depth - depth)
            &&& 1 <= t.max <= game.max_depth - depth
            &&& t.leaves == answers.len()
        },
    decreases game.max_depth - depth, 0nat,
{
    if depth < game.max_depth {
        let groups = spec_partition(game.rows[g as int], answers);
        let found = spec_outcomes(game, depth, groups, groups.len());
        let cap = (game.max_depth - depth - 1) as nat;
        lemma_outcomes(game, depth, groups, groups.len());
        assert forall|i: int| 0 <= i < groups.len() && (#[trigger] found[i]) is Some implies {
            &&& found[i].unwrap().total <= groups[i].answers.len() * cap
            &&& found[i].unwrap().max <= cap
            &&& found[i].unwrap().leaves == groups[i].answers.len()
        } by {
            lemma_solve_bounds(game, depth + 1, groups[i].answers);
        }
        lemma_sums_bounded(groups, found, groups.len() as int, cap);
        lemma_size_upto(groups);
        lemma_partition_exact(game.rows[g as int], answers);
        let n = answers.len();
        assert(n + n * cap == n * (game.max_depth - depth)) by (nonlinear_arith)
            requires
                cap == game.max_depth - depth - 1,
        ;
    }
}

/// A node put together from well-keyed subtrees of groups with different
/// patterns is well keyed.
pub proof fn lemma_assemble_keyed(
    guess: Word,
    n_answers: nat,
    groups: Seq<Group>,
    found: Seq<Option<Node>>,
)
    requires
        found.len() <= groups.len(),
        forall|i: int, j: int|
            0 <= i < j < found.len() ==> (#[trigger] groups[i]).colors@ != (#[trigger] groups[j]).colors@,
        forall|i: int|
            0 <= i < found.len() && (#[trigger] found[i]) is Some ==> well_keyed(found[i].unwrap()),
    ensures
        spec_assemble(guess, n_answers, groups, found) matches Some(t) ==> well_keyed(t),
{
    if all_found(found) {
        let t = spec_assemble(guess, n_answers, groups, found).unwrap();
        assert forall|i: int, j: int| 0 <= i < j < t.children.len() implies (
        #[trigger] t.children[i]).0@ != (#[trigger] t.children[j]).0@ by {
            assert(groups[i].colors@ != groups[j].colors@);
        }
        assert forall|i: int| 0 <= i < t.children.len() implies well_keyed(
            (#[trigger] t.children[i]).1,
        ) by {
            assert(found[i] is Some);
        }
        lemma_branches_well_keyed(t.children, t.children.len());
    }
}

/// A tree that the search returns is well keyed: its branches are a map
/// from patterns to subtrees, at every node.
pub proof fn lemma_solve_keyed(game: Game, depth: nat, answers: Seq<usize>)
    ensures
        spec_solve(game, depth, answers) matches Some(t) ==> well_keyed(t),
    decreases game.max_depth - depth, 1nat,
{
    if depth < game.max_depth && answers.len() != 1 {
        let tried = spec_candidates(game, depth, answers);
        lemma_best_is_tried(game, depth, answers, tried, tried.len());
        if spec_solve(game, depth, answers) is Some {
            let k = choose|k: int|
                0 <= k < tried.len() && spec_best(game, depth, answers, tried, tried.len())
                    == #[trigger] spec_evaluate(game, depth, answers, tried[k]);
            lemma_evaluate_keyed(game, depth, answers, tried[k]);
        }
    }
}

/// The same for the tree that starts with a given guess.
pub proof fn lemma_evaluate_keyed(game: Game, depth: nat, answers: Seq<usize>, g: usize)
    ensures
        spec_evaluate(game, depth, answers, g) matches Some(t) ==> well_keyed(t),
    decreases game.max_depth - depth, 0nat,
{
    if depth < game.max_depth {
        let row = game.rows[g as int];
        let groups = spec_partition(row, answers);
        let found = spec_outcomes(game, depth, groups, groups.len());
        lemma_outcomes(game, depth, groups, groups.len());
        lemma_groups_below(row, answers, CODES as nat);
        assert forall|i: int, j: int| 0 <= i < j < found.len() implies (#[trigger] groups[i]).colors@
            != (#[trigger] groups[j]).colors@ by {
            assert(group_code(groups[i]) < group_code(groups[j]));
        }
        assert forall|i: int| 0 <= i < found.len() && (#[trigger] found[i]) is Some implies well_keyed(
            found[i].unwrap(),
        ) by {
            lemma_solve_keyed(game, depth + 1, groups[i].answers);
        }
        lemma_assemble_keyed(game.guess_words[g as int], answers.len(), groups, found);
    }
}

/// On the last level before the depth bound, more than one candidate cannot
/// be told apart: there is no tree.
pub proof fn lemma_no_tree_at_last_level(game: Game, depth: nat, answers: Seq<usize>)
    requires
        answers.len() > 1,
        depth + 1 >= game.max_depth,
    ensures
        spec_solve(game, depth, answers) is None,
{
    if depth < game.max_depth {
        let tried = spec_candidates(game, depth, answers);
        lemma_best_is_tried(game, depth, answers, tried, tried.len());
        if spec_best(game, depth, answers, tried, tried.len()) is Some {
            let k = choose|k: int|
                0 <= k < tried.len() && spec_best(game, depth, answers, tried, tried.len())
                    == #[trigger] spec_evaluate(game, depth, answers, tried[k]);
            let row = game.rows[tried[k] as int];
            let groups = spec_partition(row, answers);
            crate::rank::lemma_spread_positive(row, answers);
            lemma_outcomes(game, depth, groups, groups.len());
            let found = spec_outcomes(game, depth, groups, groups.len());
            assert(found[0] is None);
        }
    }
}

/// Two searches of the same game, from the same depth and candidates, find
/// the same tree.
pub proof fn lemma_solve_deterministic(
    game: Game,
    depth: nat,
    answers: Seq<usize>,
    first: Option<Tree>,
    second: Option<Tree>,
)
    requires
        outcome(first) == spec_solve(game, depth, answers),
        outcome(second) == spec_solve(game, depth, answers),
    ensures
        outcome(first) == outcome(second),
        first is Some <==> second is Some,
        first is Some ==> first.unwrap()@ == second.unwrap()@,
{
}

/// The candidates of a group are ready to be solved one level deeper.
proof fn lemma_child_ready(
    params: Params,
    depth: usize,
    guesses: Seq<usize>,
    answers: Seq<usize>,
    guess_words: Seq<Word>,
    answer_words: Seq<Word>,
    matrix: Seq<Vec<Colors>>,
    g: usize,
    i: int,
)
    requires
        ready(params, depth, guesses, answers, guess_words, answer_words, matrix),
        g < matrix.len(),
        depth < usize::MAX,
        0 <= i < spec_partition(rows_of(matrix)[g as int], answers).len(),
    ensures
        ready(
            params,
            (depth + 1) as usize,
            guesses,
            spec_partition(rows_of(matrix)[g as int], answers)[i].answers,
            guess_words,
            answer_words,
            matrix,
        ),
{
    let rows = rows_of(matrix);
    let row = rows[g as int];
    let group = spec_partition(row, answers)[i];
    let b = group.answers;
    lemma_groups_below(row, answers, CODES as nat);
    crate::partition::lemma_members_len(row, answers, group_code(group));
    assert forall|k: int| 0 <= k < b.len() implies #[trigger] b[k] < answer_words.len() by {
        lemma_members_code(row, answers, group_code(group), k);
        let w = choose|w: int| 0 <= w < answers.len() && answers[w] == b[k];
        assert(answers[w] < answer_words.len());
    }
    assert forall|h: int, k: int| 0 <= h < rows.len() && 0 <= k < b.len() implies #[trigger] b[k]
        < (#[trigger] rows[h]).len() by {
        lemma_members_code(row, answers, group_code(group), k);
        let w = choose|w: int| 0 <= w < answers.len() && answers[w] == b[k];
        assert(answers[w] < rows[h].len());
    }
    assert(b.len() * params.max_depth <= answers.len() * params.max_depth) by (nonlinear_arith)
        requires
            b.len() <= answers.len(),
    ;
}

/// The position of the first copy of `w` in `words`, or their number where there is none.
pub fn position(words: &[Word], w: &Word) -> (at: usize)
    ensures
        at == index_from(words@, *w, 0),
        at <= words@.len(),
{
    let n = words.len();
    let mut i: usize = 0;
    while i < n
        invariant
            i <= n,
            n == words@.len(),
            index_from(words@, *w, 0) == index_from(words@, *w, i as int),
        decreases n - i,
    {
        if same_word(&words[i], w) {
            return i;
        }
        i += 1;
    }
    i
}

/// The better of two results: the one with fewer guesses in total, the
/// earlier one where they need the same.
pub fn pick(before: Option<Tree>, next: Option<Tree>) -> (best: Option<Tree>)
    ensures
        outcome(best) == spec_pick(outcome(before), outcome(next)),
{
    match before {
        None => next,
        Some(b) => match next {
            None => Some(b),
            Some(c) => if c.total_guesses < b.total_guesses {
                Some(c)
            } else {
                Some(b)
            },
        },
    }
}

/// Builds the node for a guess from the trees of its groups.
///
/// Where a group has no tree there is no node. Otherwise every answer costs
/// the guess itself, and all but the one that the guess hits cost what
/// their subtree says.
pub fn assemble(
    guess: Word,
    n_answers: usize,
    buckets: &Vec<Bucket>,
    children: Vec<Option<Tree>>,
) -> (tree: Option<Tree>)
    requires
        children@.len() == buckets@.len(),
        n_answers + burden(groups_of(buckets@), outcomes_of(children@), children@.len() as int)
            <= usize::MAX,
        leaf_sum(outcomes_of(children@), children@.len() as int) <= usize::MAX,
        deepest(outcomes_of(children@), children@.len() as int) < usize::MAX,
    ensures
        outcome(tree) == spec_assemble(
            guess,
            n_answers as nat,
            groups_of(buckets@),
            outcomes_of(children@),
        ),
        ((forall|i: int, j: int|
            0 <= i < j < buckets@.len() ==> (#[trigger] buckets@[i]).colors@ != (
            #[trigger] buckets@[j]).colors@) && (forall|i: int|
            0 <= i < children@.len() && (#[trigger] children@[i]) is Some ==> well_keyed(
                children@[i].unwrap()@,
            ))) ==> (tree matches Some(t) ==> well_keyed(t@)),
{
    let ghost groups = groups_of(buckets@);
    let ghost found = outcomes_of(children@);
    proof {
        if (forall|i: int, j: int|
            0 <= i < j < buckets@.len() ==> (#[trigger] buckets@[i]).colors@ != (
            #[trigger] buckets@[j]).colors@) && (forall|i: int|
            0 <= i < children@.len() && (#[trigger] children@[i]) is Some ==> well_keyed(
                children@[i].unwrap()@,
            )) {
            assert forall|i: int, j: int| 0 <= i < j < found.len() implies (
            #[trigger] groups[i]).colors@ != (#[trigger] groups[j]).colors@ by {
                assert(buckets@[i].colors@ != buckets@[j].colors@);
            }
            assert forall|i: int| 0 <= i < found.len() && (#[trigger] found[i]) is Some implies well_keyed(
                found[i].unwrap(),
            ) by {
                assert(children@[i] is Some);
            }
            lemma_assemble_keyed(guess, n_answers as nat, groups, found);
        }
    }
    let ghost given = children@;
    let mut slots = children;
    let n = slots.len();
    let mut kids: Vec<(Colors, Tree)> = Vec::new();
    let mut total: usize = n_answers;
    let mut deep: usize = 0;
    let mut leaves: usize = 0;
    let mut i: usize = 0;
    while i < n
        invariant
            i <= n,
            n == given.len(),
            n == buckets@.len(),
            slots@.len() == n,
            groups == groups_of(buckets@),
            found == outcomes_of(given),
            given == children@,
            forall|j: int| i <= j < n ==> #[trigger] slots@[j] == given[j],
            kids@.len() == i,
            forall|j: int|
                0 <= j < i ==> {
                    &&& (#[trigger] found[j]) is Some
                    &&& kids@[j].0 == groups[j].colors
                    &&& kids@[j].1@ == found[j].unwrap()
                },
            total == n_answers + burden(groups, found, i as int),
            deep == deepest(found, i as int),
            leaves == leaf_sum(found, i as int),
            n_answers + burden(groups, found, n as int) <= usize::MAX,
            leaf_sum(found, n as int) <= usize::MAX,
            deepest(found, n as int) < usize::MAX,
        decreases n - i,
    {
        let mut slot: Option<Tree> = None;
        std::mem::swap(&mut slots[i], &mut slot);
        assert(slot == given[i as int]);
        assert(found[i as int] == outcome(slot));
        proof {
            lemma_sums_grow(groups, found, i as int + 1, n as int);
        }
        match slot {
            None => {
                assert(!all_found(found));
                return None;
            },
            Some(t) => {
                let colors = buckets[i].colors;
                assert(groups[i as int].colors == colors);
                if scoreToInt(&colors) != ALL_GREEN_CODE {
                    total = total + t.total_guesses;
                }
                if t.max_guesses > deep {
                    deep = t.max_guesses;
                }
                leaves = leaves + t.leaf_count;
                kids.push((colors, t));
            },
        }
        i += 1;
    }
    let tree = Tree {
        guess,
        total_guesses: total,
        max_guesses: deep + 1,
        leaf_count: leaves,
        children: kids,
    };
    proof {
        let want = spec_assemble(guess, n_answers as nat, groups, found).unwrap();
        assert(all_found(found));
        tree.lemma_view();
        assert forall|j: int| 0 <= j < n implies tree@.children[j] == want.children[j] by {
            assert(found[j] is Some);
        }
        assert(tree@.children =~= want.children);
    }
    Some(tree)
}

/// Evaluates each of the guesses on its own, on rayon's pool of worker threads.
///
/// This is rayon's `par_iter` on the guesses, `map` with a call of
/// `evaluate` for each, and `collect` into a vector. Rayon documents that
/// collecting an indexed parallel iterator into a `Vec` gives the same vector
/// as the sequential iterator would: one result per guess, in the order of
/// the guesses. Each result is what `evaluate` returns for that guess, so it
/// meets the contract of `evaluate`.
#[verifier::external_body]
fn evaluate_each(
    params: &Params,
    depth: usize,
    guesses: &[usize],
    answers: &[usize],
    guess_words: &[Word],
    answer_words: &[Word],
    matrix: &Vec<Vec<Colors>>,
    tried: &Vec<usize>,
) -> (trees: Vec<Option<Tree>>)
    requires
        ready(*params, depth, guesses@, answers@, guess_words@, answer_words@, matrix@),
        depth < params.max_depth,
        forall|i: int| 0 <= i < tried@.len() ==> #[trigger] tried@[i] < matrix@.len(),
    ensures
        trees@.len() == tried@.len(),
        forall|i: int|
            0 <= i < tried@.len() ==> outcome(#[trigger] trees@[i]) == spec_evaluate(
                game_of(*params, guesses@, guess_words@, answer_words@, matrix@),
                depth as nat,
                answers@,
                tried@[i],
            ),
{
    tried.par_iter().map(
        |g| evaluate(params, depth, guesses, answers, guess_words, answer_words, matrix, *g),
    ).collect()
}

/// The best of the first `n` results, in their order.
pub open spec fn picked(found: Seq<Option<Node>>, n: int) -> Option<Node>
    decreases n,
{
    if n <= 0 {
        None
    } else {
        spec_pick(picked(found, n - 1), found[n - 1])
    }
}

/// Picking among the trees of the guesses tried gives the best tree.
pub proof fn lemma_picked_is_best(
    game: Game,
    depth: nat,
    answers: Seq<usize>,
    tried: Seq<usize>,
    found: Seq<Option<Node>>,
    n: nat,
)
    requires
        depth < game.max_depth,
        forall|i: int|
            0 <= i < n ==> #[trigger] found[i] == spec_evaluate(game, depth, answers, tried[i]),
    ensures
        picked(found, n as int) == spec_best(game, depth, answers, tried, n),
    decreases n,
{
    if n > 0 {
        lemma_picked_is_best(game, depth, answers, tried, found, (n - 1) as nat);
    }
}

/// The best of the results: the one with the fewest guesses in total, the
/// first of them where several need as few.
pub fn best_of(trees: Vec<Option<Tree>>) -> (best: Option<Tree>)
    ensures
        outcome(best) == picked(outcomes_of(trees@), trees@.len() as int),
{
    let ghost found = outcomes_of(trees@);
    let mut slots = trees;
    let n = slots.len();
    let mut best: Option<Tree> = None;
    let mut i: usize = 0;
    while i < n
        invariant
            i <= n,
            n == trees@.len(),
            slots@.len() == n,
            found == outcomes_of(trees@),
            forall|j: int| i <= j < n ==> #[trigger] slots@[j] == trees@[j],
            outcome(best) == picked(found, i as int),
        decreases n - i,
    {
        let mut slot: Option<Tree> = None;
        std::mem::swap(&mut slots[i], &mut slot);
        assert(slot == trees@[i as int]);
        assert(found[i as int] == outcome(slot));
        best = pick(best, slot);
        i += 1;
    }
    best
}

/// The tree that starts with guess `g`, or nothing where a group of
/// candidates has no tree one level deeper.
pub fn evaluate(
    params: &Params,
    depth: usize,
    guesses: &[usize],
    answers: &[usize],
    guess_words: &[Word],
    answer_words: &[Word],
    matrix: &Vec<Vec<Colors>>,
    g: usize,
) -> (tree: Option<Tree>)
    requires
        ready(*params, depth, guesses@, answers@, guess_words@, answer_words@, matrix@),
        depth < params.max_depth,
        g < matrix@.len(),
    ensures
        outcome(tree) == spec_evaluate(
            game_of(*params, guesses@, guess_words@, answer_words@, matrix@),
            depth as nat,
            answers@,
            g,
        ),
        tree matches Some(t) ==> well_keyed(t@),
    decreases params.max_depth - depth, 0nat,
{
    let ghost game = game_of(*params, guesses@, guess_words@, answer_words@, matrix@);
    proof {
        lemma_evaluate_keyed(game, depth as nat, answers@, g);
    }
    let ghost row = game.rows[g as int];
    let ghost groups = spec_partition(row, answers@);
    assert(row == matrix@[g as int]@);
    let buckets = partition(&matrix[g], answers);
    proof {
        assert forall|i: int| 0 <= i < buckets@.len() implies ready(
            *params,
            (depth + 1) as usize,
            guesses@,
            (#[trigger] buckets@[i]).answers@,
            guess_words@,
            answer_words@,
            matrix@,
        ) by {
            lemma_child_ready(
                *params,
                depth,
                guesses@,
                answers@,
                guess_words@,
                answer_words@,
                matrix@,
                g,
                i,
            );
            assert(buckets@[i]@ == groups[i]);
        }
    }
    let mut children: Vec<Option<Tree>> = Vec::new();
    let n = buckets.len();
    let mut i: usize = 0;
    while i < n
        invariant
            i <= n,
            n == buckets@.len(),
            depth < params.max_depth,
            game == game_of(*params, guesses@, guess_words@, answer_words@, matrix@),
            groups == spec_partition(game.rows[g as int], answers@),
            same_groups(buckets@, groups),
            children@.len() == i,
            forall|j: int|
                0 <= j < n ==> ready(
                    *params,
                    (depth + 1) as usize,
                    guesses@,
                    (#[trigger] buckets@[j]).answers@,
                    guess_words@,
                    answer_words@,
                    matrix@,
                ),
            forall|j: int|
                0 <= j < i ==> outcome(#[trigger] children@[j]) == spec_solve(
                    game,
                    (depth + 1) as nat,
                    buckets@[j].answers@,
                ),
        decreases n - i,
    {
        let ghost before = children@;
        let t = solve(
            params,
            depth + 1,
            guesses,
            buckets[i].answers.as_slice(),
            guess_words,
            answer_words,
            matrix,
        );
        if t.is_none() {
            proof {
                let found = spec_outcomes(game, depth as nat, groups, groups.len());
                lemma_outcomes(game, depth as nat, groups, groups.len());
                assert(buckets@[i as int]@ == groups[i as int]);
                assert(found[i as int] is None);
            }
            return None;
        }
        children.push(t);
        assert forall|j: int| 0 <= j < i + 1 implies outcome(#[trigger] children@[j])
            == spec_solve(game, (depth + 1) as nat, buckets@[j].answers@) by {
            if j < i {
                assert(children@[j] == before[j]);
            }
        }
        i += 1;
    }
    proof {
        let found = spec_outcomes(game, depth as nat, groups, groups.len());
        lemma_outcomes(game, depth as nat, groups, groups.len());
        assert(groups_of(buckets@) =~= groups);
        assert(outcomes_of(children@) =~= found) by {
            assert forall|i: int| 0 <= i < found.len() implies outcomes_of(children@)[i]
                == found[i] by {
                assert(buckets@[i]@ == groups[i]);
                assert(outcome(children@[i]) == spec_solve(
                    game,
                    (depth + 1) as nat,
                    buckets@[i].answers@,
                ));
            }
        }
        let cap = (params.max_depth - depth - 1) as nat;
        assert forall|i: int| 0 <= i < groups.len() && (#[trigger] found[i]) is Some implies {
            &&& found[i].unwrap().total <= groups[i].answers.len() * cap
            &&& found[i].unwrap().max <= cap
            &&& found[i].unwrap().leaves == groups[i].answers.len()
        } by {
            lemma_solve_bounds(game, depth as nat + 1, groups[i].answers);
        }
        lemma_sums_bounded(groups, found, groups.len() as int, cap);
        lemma_size_upto(groups);
        lemma_partition_exact(row, answers@);
        let len = answers@.len();
        assert(len + len * cap <= len * params.max_depth) by (nonlinear_arith)
            requires
                cap + 1 <= params.max_depth,
        ;
    }
    assemble(guess_words[g], answers.len(), &buckets, children)
}

/// Finds a decision tree for the candidates `answers`, `depth` guesses into
/// the game.
///
/// There is no tree from the depth bound on. A single candidate is a leaf.
/// Otherwise the guesses tried are the fixed first guess, at depth 0 where
/// one is set, or the best-ranked few. Of their trees the one with the
/// fewest guesses in total is returned, the first of them where several
/// need as few. Where no tried guess has a tree, there is none.
///
/// On the first two levels the guesses are tried in parallel, deeper ones
/// one after the other. The result is the same either way.
pub fn solve(
    params: &Params,
    depth: usize,
    guesses: &[usize],
    answers: &[usize],
    guess_words: &[Word],
    answer_words: &[Word],
    matrix: &Vec<Vec<Colors>>,
) -> (tree: Option<Tree>)
    requires
        ready(*params, depth, guesses@, answers@, guess_words@, answer_words@, matrix@),
    ensures
        outcome(tree) == spec_solve(
            game_of(*params, guesses@, guess_words@, answer_words@, matrix@),
            depth as nat,
            answers@,
        ),
        depth >= params.max_depth ==> tree is None,
        depth < params.max_depth && answers@.len() == 1 ==> tree is Some && tree.unwrap()@
            == leaf_node(answer_words@[answers@[0] as int]),
        depth + 1 >= params.max_depth && answers@.len() > 1 ==> tree is None,
        tree matches Some(t) ==> {
            &&& t.total_guesses <= answers@.len() * (params.max_depth - depth)
            &&& 1 <= t.max_guesses <= params.max_depth - depth
            &&& t.leaf_count == answers@.len()
            &&& well_keyed(t@)
        },
        score_table(matrix@, guess_words@, answer_words@) ==> (tree matches Some(t) ==> plays(
            t@,
            answer_words@,
            answers@,
        )),
    decreases params.max_depth - depth, 1nat,
{
    let ghost game = game_of(*params, guesses@, guess_words@, answer_words@, matrix@);
    proof {
        if score_table(matrix@, guess_words@, answer_words@) && spec_solve(
            game,
            depth as nat,
            answers@,
        ) is Some {
            lemma_score_table_is_fair(*params, guesses@, guess_words@, answer_words@, matrix@);
            lemma_tree_finds_every_candidate(game, depth as nat, answers@);
        }
        lemma_solve_bounds(game, depth as nat, answers@);
        lemma_solve_keyed(game, depth as nat, answers@);
        if depth + 1 >= params.max_depth && answers@.len() > 1 {
            lemma_no_tree_at_last_level(game, depth as nat, answers@);
        }
    }
    if depth >= params.max_depth {
        return None;
    }
    if answers.len() == 1 {
        return Some(Tree::leaf(answer_words[answers[0]]));
    }
    let forced: Option<Word> = if depth == 0 {
        params.starting_word
    } else {
        None
    };
    let top: Vec<usize> = match forced {
        Some(w) => {
            let at = position(guess_words, &w);
            let mut only: Vec<usize> = Vec::new();
            only.push(at);
            assert(only@ =~= spec_candidates(game, depth as nat, answers@));
            only
        },
        None => {
            proof {
                lemma_rank_in_order(game.rows, answers@, guesses@, game.limit);
            }
            rank(matrix, guesses, answers, params.n_guesses)
        },
    };
    assert(top@ == spec_candidates(game, depth as nat, answers@));
    assert forall|i: int| 0 <= i < top@.len() implies #[trigger] top@[i] < matrix@.len() by {
        if forced is None {
            let m = choose|m: int| 0 <= m < guesses@.len() && guesses@[m] == top@[i];
            assert(guesses@[m] < game.rows.len());
        }
    }
    if depth <= 1 {
        let trees = evaluate_each(
            params,
            depth,
            guesses,
            answers,
            guess_words,
            answer_words,
            matrix,
            &top,
        );
        proof {
            lemma_picked_is_best(
                game,
                depth as nat,
                answers@,
                top@,
                outcomes_of(trees@),
                top@.len(),
            );
        }
        return best_of(trees);
    }
    let mut best: Option<Tree> = None;
    let n = top.len();
    let mut i: usize = 0;
    while i < n
        invariant
            i <= n,
            n == top@.len(),
            depth < params.max_depth,
            ready(*params, depth, guesses@, answers@, guess_words@, answer_words@, matrix@),
            game == game_of(*params, guesses@, guess_words@, answer_words@, matrix@),
            forall|i: int| 0 <= i < top@.len() ==> #[trigger] top@[i] < matrix@.len(),
            outcome(best) == spec_best(game, depth as nat, answers@, top@, i as nat),
        decreases n - i,
    {
        let t = evaluate(
            params,
            depth,
            guesses,
            answers,
            guess_words,
            answer_words,
            matrix,
            top[i],
        );
        best = pick(best, t);
        i += 1;
    }
    best
}

/// Why a search could not start.
#[derive(Debug, Clone, Copy, PartialEq, Eq)]
pub enum SearchError {
    /// There is no answer to find.
    NoAnswers,
    /// The matrix lacks a row for a guess or a cell for an answer.
    Matrix,
    /// The total of guesses could exceed what the machine can count.
    TooLarge,
    /// The fixed first guess is not in the vocabulary of guesses.
    StartingWord,
}

/// The indices below `n`, in ascending order.
pub open spec fn count_up(n: nat) -> Seq<usize> {
    Seq::new(n, |i: int| i as usize)
}

/// The matrix has a row for every guess, with a cell for every answer.
pub open spec fn fits(matrix: Seq<Vec<Colors>>, n_guesses: nat, n_answers: nat) -> bool {
    &&& matrix.len() == n_guesses
    &&& forall|g: int| 0 <= g < matrix.len() ==> (#[trigger] matrix[g])@.len() >= n_answers
}

/// The indices below `n`, in ascending order.
pub fn indexes(n: usize) -> (all: Vec<usize>)
    ensures
        all@ == count_up(n as nat),
{
    let mut all: Vec<usize> = Vec::new();
    let mut i: usize = 0;
    while i < n
        invariant
            i <= n,
            all@ == count_up(i as nat),
        decreases n - i,
    {
        all.push(i);
        assert(all@ =~= count_up((i + 1) as nat));
        i += 1;
    }
    all
}

/// Whether the matrix has a row for every guess, with a cell for every answer.
pub fn check_shape(matrix: &Vec<Vec<Colors>>, n_guesses: usize, n_answers: usize) -> (ok: bool)
    ensures
        ok == fits(matrix@, n_guesses as nat, n_answers as nat),
{
    if matrix.len() != n_guesses {
        return false;
    }
    let mut g: usize = 0;
    while g < n_guesses
        invariant
            g <= n_guesses,
            matrix@.len() == n_guesses,
            forall|h: int| 0 <= h < g ==> (#[trigger] matrix@[h])@.len() >= n_answers,
        decreases n_guesses - g,
    {
        if matrix[g].len() < n_answers {
            return false;
        }
        g += 1;
    }
    true
}

/// Searches the whole game: every answer is a candidate, every word of the
/// vocabulary may be guessed.
///
/// The reasons not to start are tested in the order of `SearchError`. A
/// search that starts returns what `solve` finds at depth 0.
pub fn search(
    params: &Params,
    guess_words: &[Word],
    answer_words: &[Word],
    matrix: &Vec<Vec<Colors>>,
) -> (found: Result<Option<Tree>, SearchError>)
    ensures
        match found {
            Err(SearchError::NoAnswers) => answer_words@.len() == 0,
            Err(SearchError::Matrix) => answer_words@.len() > 0 && !fits(
                matrix@,
                guess_words@.len(),
                answer_words@.len(),
            ),
            Err(SearchError::TooLarge) => answer_words@.len() > 0 && fits(
                matrix@,
                guess_words@.len(),
                answer_words@.len(),
            ) && answer_words@.len() * params.max_depth > usize::MAX,
            Err(SearchError::StartingWord) => answer_words@.len() > 0 && fits(
                matrix@,
                guess_words@.len(),
                answer_words@.len(),
            ) && answer_words@.len() * params.max_depth <= usize::MAX && params.starting_word is Some
                && index_from(guess_words@, params.starting_word.unwrap(), 0) >= guess_words@.len(),
            Ok(tree) => ready(
                *params,
                0,
                count_up(guess_words@.len()),
                count_up(answer_words@.len()),
                guess_words@,
                answer_words@,
                matrix@,
            ) && outcome(tree) == spec_solve(
                game_of(
                    *params,
                    count_up(guess_words@.len()),
                    guess_words@,
                    answer_words@,
                    matrix@,
                ),
                0,
                count_up(answer_words@.len()),
            ) && (tree matches Some(t) ==> well_keyed(t@)) && (score_table(
                matrix@,
                guess_words@,
                answer_words@,
            ) ==> (tree matches Some(t) ==> plays(
                t@,
                answer_words@,
                count_up(answer_words@.len()),
            ))),
        },
{
    if answer_words.len() == 0 {
        return Err(SearchError::NoAnswers);
    }
    if !check_shape(matrix, guess_words.len(), answer_words.len()) {
        return Err(SearchError::Matrix);
    }
    if answer_words.len().checked_mul(params.max_depth).is_none() {
        return Err(SearchError::TooLarge);
    }
    match params.starting_word {
        Some(w) => {
            if position(guess_words, &w) >= guess_words.len() {
                return Err(SearchError::StartingWord);
            }
        },
        None => {},
    }
    let guesses = indexes(guess_words.len());
    let answers = indexes(answer_words.len());
    Ok(solve(params, 0, guesses.as_slice(), answers.as_slice(), guess_words, answer_words, matrix))
}

} // verus!
