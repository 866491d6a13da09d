//! What a decision tree is worth: playing it finds every candidate, within
//! the number of guesses that the tree states.

use vstd::prelude::*;
use crate::word::Word;
use crate::feedback::{
    Colors,
    ALL_GREEN_CODE,
    lemma_all_green_iff_same,
    lemma_code_injective,
    lemma_score_is_pattern,
    pattern_code,
    spec_score,
};
use crate::partition::{
    CODES,
    Group,
    code_of,
    group_code,
    groups_below,
    lemma_group_colors,
    lemma_groups_below,
    lemma_members_all,
    lemma_members_code,
    lemma_partition_exact,
    members,
    spec_partition,
};
use crate::rank::lemma_rank_in_order;
use crate::matrix::score_table;
use crate::search::{
    Game,
    Params,
    all_found,
    burden,
    deepest,
    game_of,
    index_from,
    lemma_best_is_tried,
    lemma_outcomes,
    lemma_size_upto,
    size_upto,
    spec_best,
    spec_candidates,
    spec_evaluate,
    spec_outcomes,
    spec_solve,
};
use crate::tree::{Node, branch_of, lemma_branch};

verus! {

/// How many guesses a player makes who follows the tree while the answer is
/// `answer`: the node's guess, and if that is not the answer, the guesses of
/// the branch that belongs to the feedback.
pub open spec fn guesses_needed(node: Node, answer: Seq<u8>) -> nat
    decreases node,
{
    if node.guess@ == answer {
        1
    } else {
        let i = branch_of(node.children, spec_score(node.guess@, answer), 0);
        if 0 <= i < node.children.len() {
            1 + guesses_needed(node.children[i].1, answer)
        } else {
            1
        }
    }
}

/// Whether a player who follows the tree comes to guess `answer`.
pub open spec fn finds(node: Node, answer: Seq<u8>) -> bool
    decreases node,
{
    if node.guess@ == answer {
        true
    } else {
        let i = branch_of(node.children, spec_score(node.guess@, answer), 0);
        if 0 <= i < node.children.len() {
            finds(node.children[i].1, answer)
        } else {
            false
        }
    }
}

/// The guesses needed for each of the candidates, added up.
pub open spec fn total_needed(node: Node, answer_words: Seq<Word>, answers: Seq<usize>) -> nat
    decreases answers.len(),
{
    if answers.len() == 0 {
        0
    } else {
        total_needed(node, answer_words, answers.drop_last()) + guesses_needed(
            node,
            answer_words[answers.last() as int]@,
        )
    }
}

/// The rows of the game hold the pattern of every guess against every answer,
/// and every guess that may be tried is a word of the vocabulary.
pub open spec fn fair(game: Game) -> bool {
    &&& game.rows.len() == game.guess_words.len()
    &&& forall|g: int|
        0 <= g < game.rows.len() ==> (#[trigger] game.rows[g]).len() >= game.answer_words.len()
    &&& forall|g: int, a: int|
        0 <= g < game.rows.len() && 0 <= a < game.answer_words.len() ==> (#[trigger] game.rows[g][a])@
            == spec_score(game.guess_words[g]@, game.answer_words[a]@)
    &&& forall|i: int| 0 <= i < game.guesses.len() ==> #[trigger] game.guesses[i] < game.rows.len()
}

/// A tree is a strategy for the candidates: a player who follows it comes to
/// guess each of them, with no more guesses than the tree's `max`, which one
/// of them needs in full, and the guesses for all of them add up to the
/// tree's `total`.
pub open spec fn plays(node: Node, answer_words: Seq<Word>, answers: Seq<usize>) -> bool {
    &&& forall|k: int|
        0 <= k < answers.len() ==> finds(node, answer_words[(#[trigger] answers[k]) as int]@)
    &&& forall|k: int|
        0 <= k < answers.len() ==> guesses_needed(
            node,
            answer_words[(#[trigger] answers[k]) as int]@,
        ) <= node.max
    &&& node.total == total_needed(node, answer_words, answers)
    &&& answers.len() > 0 ==> exists|k: int|
        0 <= k < answers.len() && guesses_needed(
            node,
            answer_words[(#[trigger] answers[k]) as int]@,
        ) == node.max
}

/// A game on a matrix that holds the scores is fair.
pub proof fn lemma_score_table_is_fair(
    params: Params,
    guesses: Seq<usize>,
    guess_words: Seq<Word>,
    answer_words: Seq<Word>,
    matrix: Seq<Vec<Colors>>,
)
    requires
        score_table(matrix, guess_words, answer_words),
        forall|i: int| 0 <= i < guesses.len() ==> #[trigger] guesses[i] < guess_words.len(),
    ensures
        fair(game_of(params, guesses, guess_words, answer_words, matrix)),
{
    let game = game_of(params, guesses, guess_words, answer_words, matrix);
    assert forall|g: int| 0 <= g < game.rows.len() implies (#[trigger] game.rows[g]).len()
        >= game.answer_words.len() by {
        assert(game.rows[g] == matrix[g]@);
    }
    assert forall|g: int, a: int|
        0 <= g < game.rows.len() && 0 <= a < game.answer_words.len() implies (#[trigger] game.rows[g][a])@
        == spec_score(game.guess_words[g]@, game.answer_words[a]@) by {
        assert(game.rows[g] == matrix[g]@);
        assert(matrix[g]@[a]@ == spec_score(guess_words[g]@, answer_words[a]@));
    }
}

/// The guesses needed for the candidates with a code below `n`, added up code by code.
pub open spec fn needed_by_code(
    node: Node,
    answer_words: Seq<Word>,
    row: Seq<Colors>,
    answers: Seq<usize>,
    n: nat,
) -> nat
    decreases n,
{
    if n == 0 {
        0
    } else {
        needed_by_code(node, answer_words, row, answers, (n - 1) as nat) + total_needed(
            node,
            answer_words,
            members(row, answers, (n - 1) as nat),
        )
    }
}

/// The guesses needed for the candidates of the first `n` groups.
pub open spec fn needed_upto(node: Node, answer_words: Seq<Word>, groups: Seq<Group>, n: int) -> nat
    decreases n,
{
    if n <= 0 {
        0
    } else {
        needed_upto(node, answer_words, groups, n - 1) + total_needed(
            node,
            answer_words,
            groups[n - 1].answers,
        )
    }
}

proof fn lemma_index_from(words: Seq<Word>, w: Word, from: int)
    requires
        0 <= from,
    ensures
        from <= index_from(words, w, from) || index_from(words, w, from) == words.len(),
        0 <= index_from(words, w, from) <= words.len(),
    decreases words.len() - from,
{
    if from < words.len() && words[from]@ != w@ {
        lemma_index_from(words, w, from + 1);
    }
}

proof fn lemma_code_step(
    node: Node,
    answer_words: Seq<Word>,
    row: Seq<Colors>,
    answers: Seq<usize>,
    n: nat,
)
    requires
        answers.len() > 0,
    ensures
        needed_by_code(node, answer_words, row, answers, n) == needed_by_code(
            node,
            answer_words,
            row,
            answers.drop_last(),
            n,
        ) + if code_of(row, answers.last()) < n {
            guesses_needed(node, answer_words[answers.last() as int]@)
        } else {
            0
        },
    decreases n,
{
    if n > 0 {
        lemma_code_step(node, answer_words, row, answers, (n - 1) as nat);
        let c = (n - 1) as nat;
        let m = members(row, answers, c);
        let rest = members(row, answers.drop_last(), c);
        if code_of(row, answers.last()) == c {
            assert(m == rest.push(answers.last()));
            assert(m.drop_last() == rest);
        }
    }
}

proof fn lemma_regroup(node: Node, answer_words: Seq<Word>, row: Seq<Colors>, answers: Seq<usize>)
    ensures
        total_needed(node, answer_words, answers) == needed_by_code(
            node,
            answer_words,
            row,
            answers,
            CODES as nat,
        ),
    decreases answers.len(),
{
    if answers.len() == 0 {
        lemma_nothing_needed(node, answer_words, row, CODES as nat);
        assert(answers =~= Seq::<usize>::empty());
    } else {
        lemma_regroup(node, answer_words, row, answers.drop_last());
        lemma_code_step(node, answer_words, row, answers, CODES as nat);
        assert(code_of(row, answers.last()) < CODES);
    }
}

proof fn lemma_nothing_needed(node: Node, answer_words: Seq<Word>, row: Seq<Colors>, n: nat)
    ensures
        needed_by_code(node, answer_words, row, Seq::empty(), n) == 0,
    decreases n,
{
    if n > 0 {
        lemma_nothing_needed(node, answer_words, row, (n - 1) as nat);
    }
}

proof fn lemma_needed_prefix(
    node: Node,
    answer_words: Seq<Word>,
    a: Seq<Group>,
    b: Seq<Group>,
    n: int,
)
    requires
        n <= a.len(),
        n <= b.len(),
        forall|i: int| 0 <= i < n ==> a[i] == b[i],
    ensures
        needed_upto(node, answer_words, a, n) == needed_upto(node, answer_words, b, n),
    decreases n,
{
    if n > 0 {
        lemma_needed_prefix(node, answer_words, a, b, n - 1);
    }
}

proof fn lemma_codes_are_groups(
    node: Node,
    answer_words: Seq<Word>,
    row: Seq<Colors>,
    answers: Seq<usize>,
    n: nat,
)
    ensures
        needed_by_code(node, answer_words, row, answers, n) == needed_upto(
            node,
            answer_words,
            groups_below(row, answers, n),
            groups_below(row, answers, n).len() as int,
        ),
    decreases n,
{
    if n > 0 {
        let c = (n - 1) as nat;
        lemma_codes_are_groups(node, answer_words, row, answers, c);
        let before = groups_below(row, answers, c);
        let now = groups_below(row, answers, n);
        let m = members(row, answers, c);
        if m.len() > 0 {
            lemma_needed_prefix(node, answer_words, now, before, before.len() as int);
        }
    }
}

/// Where every candidate of a list costs one guess more under `node` than
/// under `sub`, so does the list, candidate by candidate.
proof fn lemma_one_more_each(node: Node, sub: Node, answer_words: Seq<Word>, s: Seq<usize>)
    requires
        forall|j: int|
            0 <= j < s.len() ==> guesses_needed(node, answer_words[(#[trigger] s[j]) as int]@) == 1
                + guesses_needed(sub, answer_words[s[j] as int]@),
    ensures
        total_needed(node, answer_words, s) == s.len() + total_needed(sub, answer_words, s),
    decreases s.len(),
{
    if s.len() > 0 {
        let rest = s.drop_last();
        assert forall|j: int| 0 <= j < rest.len() implies guesses_needed(
            node,
            answer_words[(#[trigger] rest[j]) as int]@,
        ) == 1 + guesses_needed(sub, answer_words[rest[j] as int]@) by {
            assert(rest[j] == s[j]);
        }
        lemma_one_more_each(node, sub, answer_words, rest);
        assert(s[s.len() - 1] == s.last());
    }
}

/// Where every candidate of a list costs one guess, the list costs its length.
proof fn lemma_one_each(node: Node, answer_words: Seq<Word>, s: Seq<usize>)
    requires
        forall|j: int|
            0 <= j < s.len() ==> guesses_needed(node, answer_words[(#[trigger] s[j]) as int]@) == 1,
    ensures
        total_needed(node, answer_words, s) == s.len(),
    decreases s.len(),
{
    if s.len() > 0 {
        let rest = s.drop_last();
        assert forall|j: int| 0 <= j < rest.len() implies guesses_needed(
            node,
            answer_words[(#[trigger] rest[j]) as int]@,
        ) == 1 by {
            assert(rest[j] == s[j]);
        }
        lemma_one_each(node, answer_words, rest);
        assert(s[s.len() - 1] == s.last());
    }
}

/// The largest `max` among subtrees is no smaller than that of any of them.
proof fn lemma_deepest_covers(found: Seq<Option<Node>>, n: int, i: int)
    requires
        0 <= i < n,
        found[i] is Some,
    ensures
        found[i].unwrap().max <= deepest(found, n),
    decreases n,
{
    if i < n - 1 {
        lemma_deepest_covers(found, n - 1, i);
    }
}

/// The sum over the first `n` groups, given what each group costs.
proof fn lemma_groups_add_up(
    node: Node,
    answer_words: Seq<Word>,
    groups: Seq<Group>,
    found: Seq<Option<Node>>,
    n: int,
)
    requires
        0 <= n <= groups.len(),
        forall|i: int|
            0 <= i < n ==> total_needed(node, answer_words, (#[trigger] groups[i]).answers)
                == groups[i].answers.len() + if group_code(groups[i]) != ALL_GREEN_CODE && found[i] is Some {
                found[i].unwrap().total
            } else {
                0
            },
    ensures
        needed_upto(node, answer_words, groups, n) == size_upto(groups, n) + burden(groups, found, n),
    decreases n,
{
    if n > 0 {
        lemma_groups_add_up(node, answer_words, groups, found, n - 1);
        assert(total_needed(node, answer_words, groups[n - 1].answers) == groups[n - 1].answers.len()
            + if group_code(groups[n - 1]) != ALL_GREEN_CODE && found[n - 1] is Some {
            found[n - 1].unwrap().total
        } else {
            0
        });
    }
}

/// A tree that the search returns is a strategy for its candidates.
///
/// A player who follows the tree comes to guess each candidate, with no more
/// guesses than the tree's `max`, and the guesses for all candidates add up
/// to the tree's `total`.
pub proof fn lemma_tree_finds_every_candidate(game: Game, depth: nat, answers: Seq<usize>)
    requires
        fair(game),
        (depth == 0 && game.opening is Some) ==> index_from(
            game.guess_words,
            game.opening.unwrap(),
            0,
        ) < game.guess_words.len(),
        forall|k: int| 0 <= k < answers.len() ==> #[trigger] answers[k] < game.answer_words.len(),
        spec_solve(game, depth, answers) is Some,
    ensures
        plays(spec_solve(game, depth, answers).unwrap(), game.answer_words, answers),
    decreases game.max_depth - depth, 1nat,
{
    let t = spec_solve(game, depth, answers).unwrap();
    if answers.len() > 0 {
        lemma_max_is_reached(game, depth, answers);
    }
    if answers.len() == 1 {
        assert(answers.drop_last().len() == 0);
        assert(answers.last() == answers[0]);
        assert(total_needed(t, game.answer_words, answers.drop_last()) == 0);
    } else {
        let tried = spec_candidates(game, depth, answers);
        lemma_best_is_tried(game, depth, answers, tried, tried.len());
        let k0 = choose|k: int|
            0 <= k < tried.len() && spec_best(game, depth, answers, tried, tried.len())
                == #[trigger] spec_evaluate(game, depth, answers, tried[k]);
        let g = tried[k0];
        if answers.len() > 0 {
            if depth == 0 && game.opening is Some {
                let at = index_from(game.guess_words, game.opening.unwrap(), 0);
                lemma_index_from(game.guess_words, game.opening.unwrap(), 0);
                assert(tried[0] == at as usize);
                assert(g < game.rows.len());
            } else {
                lemma_rank_in_order(game.rows, answers, game.guesses, game.limit);
                let m = choose|m: int| 0 <= m < game.guesses.len() && game.guesses[m] == tried[k0];
                assert(game.guesses[m] < game.rows.len());
            }
            lemma_guess_plays(game, depth, answers, g);
        } else {
            let groups = spec_partition(game.rows[g as int], answers);
            lemma_partition_exact(game.rows[g as int], answers);
            assert(groups.len() == 0) by {
                if groups.len() > 0 {
                    assert(groups[0].answers.len() > 0);
                    assert(groups[0].answers.contains(groups[0].answers[0]));
                }
            }
            lemma_outcomes(game, depth, groups, groups.len());
        }
    }
}

/// The same for the tree that starts with a given guess.
proof fn lemma_guess_plays(game: Game, depth: nat, answers: Seq<usize>, g: usize)
    requires
        fair(game),
        g < game.rows.len(),
        answers.len() > 0,
        forall|k: int| 0 <= k < answers.len() ==> #[trigger] answers[k] < game.answer_words.len(),
        spec_evaluate(game, depth, answers, g) is Some,
    ensures
        forall|k: int|
            0 <= k < answers.len() ==> finds(
                spec_evaluate(game, depth, answers, g).unwrap(),
                game.answer_words[(#[trigger] answers[k]) as int]@,
            ),
        forall|k: int|
            0 <= k < answers.len() ==> guesses_needed(
                spec_evaluate(game, depth, answers, g).unwrap(),
                game.answer_words[(#[trigger] answers[k]) as int]@,
            ) <= spec_evaluate(game, depth, answers, g).unwrap().max,
        spec_evaluate(game, depth, answers, g).unwrap().total == total_needed(
            spec_evaluate(game, depth, answers, g).unwrap(),
            game.answer_words,
            answers,
        ),
    decreases game.max_depth - depth, 0nat,
{
    let t = spec_evaluate(game, depth, answers, g).unwrap();
    let row = game.rows[g as int];
    let words = game.answer_words;
    let groups = spec_partition(row, answers);
    let found = spec_outcomes(game, depth, groups, groups.len());
    lemma_outcomes(game, depth, groups, groups.len());
    lemma_groups_below(row, answers, CODES as nat);
    lemma_partition_exact(row, answers);
    assert(all_found(found));
    assert(t.guess == game.guess_words[g as int]);
    assert(t.children.len() == groups.len());

    // each group's subtree is a strategy for the group
    assert forall|i: int| 0 <= i < groups.len() implies {
        &&& forall|j: int|
            0 <= j < groups[i].answers.len() ==> (#[trigger] groups[i].answers[j]) < words.len()
        &&& (#[trigger] found[i]) is Some
        &&& found[i] == spec_solve(game, depth + 1, groups[i].answers)
    } by {
        assert forall|j: int| 0 <= j < groups[i].answers.len() implies (#[trigger] groups[i].answers[j])
            < words.len() by {
            lemma_members_code(row, answers, group_code(groups[i]), j);
            let x = groups[i].answers[j];
            let w = choose|w: int| 0 <= w < answers.len() && answers[w] == x;
            assert(answers[w] < words.len());
        }
    }
    assert forall|i: int| 0 <= i < groups.len() implies {
        let sub = (#[trigger] found[i]).unwrap();
        &&& forall|j: int|
            0 <= j < groups[i].answers.len() ==> finds(
                sub,
                words[(#[trigger] groups[i].answers[j]) as int]@,
            ) && guesses_needed(sub, words[groups[i].answers[j] as int]@) <= sub.max
        &&& sub.total == total_needed(sub, words, groups[i].answers)
    } by {
        assert(found[i] is Some);
        lemma_tree_finds_every_candidate(game, depth + 1, groups[i].answers);
    }

    // what each candidate costs under the node
    assert forall|i: int, j: int| 0 <= i < groups.len() && 0 <= j < groups[i].answers.len() implies {
        let x = #[trigger] groups[i].answers[j];
        let sub = found[i].unwrap();
        &&& finds(t, words[x as int]@)
        &&& guesses_needed(t, words[x as int]@) <= t.max
        &&& guesses_needed(t, words[x as int]@) == if group_code(groups[i]) != ALL_GREEN_CODE {
            1 + guesses_needed(sub, words[x as int]@)
        } else {
            1
        }
    } by {
        lemma_candidate_cost(game, depth, answers, g, i, j);
        lemma_deepest_covers(found, groups.len() as int, i);
    }

    // every candidate is in a group
    assert forall|k: int| 0 <= k < answers.len() implies finds(
        t,
        words[(#[trigger] answers[k]) as int]@,
    ) && guesses_needed(t, words[answers[k] as int]@) <= t.max by {
        let x = answers[k];
        assert(answers.contains(x));
        let i = choose|i: int| 0 <= i < groups.len() && (#[trigger] groups[i]).answers.contains(x);
        let j = choose|j: int| 0 <= j < groups[i].answers.len() && groups[i].answers[j] == x;
        assert(groups[i].answers[j] == x);
    }

    // the costs add up
    lemma_regroup(t, words, row, answers);
    lemma_codes_are_groups(t, words, row, answers, CODES as nat);
    assert forall|i: int| 0 <= i < groups.len() implies total_needed(
        t,
        words,
        (#[trigger] groups[i]).answers,
    ) == groups[i].answers.len() + if group_code(groups[i]) != ALL_GREEN_CODE && found[i] is Some {
        found[i].unwrap().total
    } else {
        0
    } by {
        let s = groups[i].answers;
        let sub = found[i].unwrap();
        if group_code(groups[i]) != ALL_GREEN_CODE {
            assert forall|j: int| 0 <= j < s.len() implies guesses_needed(
                t,
                words[(#[trigger] s[j]) as int]@,
            ) == 1 + guesses_needed(sub, words[s[j] as int]@) by {
                assert(groups[i].answers[j] == s[j]);
            }
            lemma_one_more_each(t, sub, words, s);
        } else {
            assert forall|j: int| 0 <= j < s.len() implies guesses_needed(
                t,
                words[(#[trigger] s[j]) as int]@,
            ) == 1 by {
                assert(groups[i].answers[j] == s[j]);
            }
            lemma_one_each(t, words, s);
        }
    }
    lemma_groups_add_up(t, words, groups, found, groups.len() as int);
    lemma_size_upto(groups);
}

/// What a candidate costs under a node, by what it costs under the subtree of
/// its group: one guess more, or one guess in all where the node's guess
/// is the candidate itself.
proof fn lemma_candidate_cost(
    game: Game,
    depth: nat,
    answers: Seq<usize>,
    g: usize,
    i: int,
    j: int,
)
    requires
        fair(game),
        g < game.rows.len(),
        forall|k: int| 0 <= k < answers.len() ==> #[trigger] answers[k] < game.answer_words.len(),
        spec_evaluate(game, depth, answers, g) is Some,
        0 <= i < spec_partition(game.rows[g as int], answers).len(),
        0 <= j < spec_partition(game.rows[g as int], answers)[i].answers.len(),
    ensures
        ({
            let t = spec_evaluate(game, depth, answers, g).unwrap();
            let group = spec_partition(game.rows[g as int], answers)[i];
            let sub = spec_solve(game, depth + 1, group.answers);
            let word = game.answer_words[group.answers[j] as int]@;
            &&& sub is Some
            &&& group.answers[j] < game.answer_words.len()
            &&& group_code(group) == ALL_GREEN_CODE <==> t.guess@ == word
            &&& guesses_needed(t, word) == if group_code(group) != ALL_GREEN_CODE {
                1 + guesses_needed(sub.unwrap(), word)
            } else {
                1
            }
            &&& finds(t, word) == if group_code(group) != ALL_GREEN_CODE {
                finds(sub.unwrap(), word)
            } else {
                true
            }
        }),
{
    let t = spec_evaluate(game, depth, answers, g).unwrap();
    let row = game.rows[g as int];
    let words = game.answer_words;
    let groups = spec_partition(row, answers);
    let found = spec_outcomes(game, depth, groups, groups.len());
    lemma_outcomes(game, depth, groups, groups.len());
    lemma_groups_below(row, answers, CODES as nat);
    assert(all_found(found));
    assert(found[i] is Some);
    let x = groups[i].answers[j];
    let sub = found[i].unwrap();
    let c = group_code(groups[i]);
    lemma_members_code(row, answers, c, j);
    let at = choose|at: int| 0 <= at < answers.len() && answers[at] == x;
    assert(answers[at] < words.len());
    let p = spec_score(t.guess@, words[x as int]@);
    assert(row[x as int]@ == p);
    assert(pattern_code(p) == c);
    lemma_all_green_iff_same(t.guess@, words[x as int]@);
    if c != ALL_GREEN_CODE {
        lemma_group_colors(row, answers, CODES as nat, i);
        let first = groups[i].answers[0];
        lemma_members_code(row, answers, c, 0);
        let w = choose|w: int| 0 <= w < answers.len() && answers[w] == first;
        assert(answers[w] < words.len());
        assert(groups[i].colors@ == spec_score(t.guess@, words[first as int]@));
        lemma_score_is_pattern(t.guess@, words[first as int]@);
        lemma_score_is_pattern(t.guess@, words[x as int]@);
        lemma_code_injective(groups[i].colors@, p);
        lemma_branch(t.children, p, 0);
        let b = branch_of(t.children, p, 0);
        assert(t.children[i].0@ == p);
        if b < i {
            assert(t.children[b].0 == groups[b].colors);
            assert(group_code(groups[b]) < group_code(groups[i]));
        }
        assert(b == i);
        assert(t.children[i].1 == sub);
    }
}

/// Candidates that are all the same word cannot be told apart: there is no
/// tree for two or more of them.
pub proof fn lemma_same_word_no_tree(game: Game, depth: nat, answers: Seq<usize>)
    requires
        fair(game),
        (depth == 0 && game.opening is Some) ==> index_from(
            game.guess_words,
            game.opening.unwrap(),
            0,
        ) < game.guess_words.len(),
        answers.len() >= 2,
        forall|k: int| 0 <= k < answers.len() ==> #[trigger] answers[k] < game.answer_words.len(),
        forall|k: int|
            0 <= k < answers.len() ==> game.answer_words[(#[trigger] answers[k]) as int]@
                == game.answer_words[answers[0] as int]@,
    ensures
        spec_solve(game, depth, answers) is None,
    decreases game.max_depth - depth,
{
    if depth < game.max_depth {
        let tried = spec_candidates(game, depth, answers);
        lemma_best_is_tried(game, depth, answers, tried, tried.len());
        if spec_best(game, depth, answers, tried, tried.len()) is Some {
            let k0 = choose|k: int|
                0 <= k < tried.len() && spec_best(game, depth, answers, tried, tried.len())
                    == #[trigger] spec_evaluate(game, depth, answers, tried[k]);
            let g = tried[k0];
            lemma_tried_is_a_guess(game, depth, answers, k0);
            let row = game.rows[g as int];
            let groups = spec_partition(row, answers);
            let found = spec_outcomes(game, depth, groups, groups.len());
            let c = code_of(row, answers[0]);
            assert forall|k: int| 0 <= k < answers.len() implies code_of(row, #[trigger] answers[k])
                == c by {
                assert(row[answers[k] as int]@ == spec_score(
                    game.guess_words[g as int]@,
                    game.answer_words[answers[k] as int]@,
                ));
                assert(row[answers[0] as int]@ == spec_score(
                    game.guess_words[g as int]@,
                    game.answer_words[answers[0] as int]@,
                ));
            }
            lemma_members_all(row, answers, c);
            lemma_groups_below(row, answers, CODES as nat);
            assert(c < CODES);
            let i = choose|i: int| 0 <= i < groups.len() && group_code(#[trigger] groups[i]) == c;
            assert(groups[i].answers == answers);
            lemma_outcomes(game, depth, groups, groups.len());
            lemma_same_word_no_tree(game, depth + 1, answers);
            assert(found[i] is None);
        }
    }
}

/// Every guess that is tried is a word of the vocabulary.
proof fn lemma_tried_is_a_guess(game: Game, depth: nat, answers: Seq<usize>, k: int)
    requires
        fair(game),
        (depth == 0 && game.opening is Some) ==> index_from(
            game.guess_words,
            game.opening.unwrap(),
            0,
        ) < game.guess_words.len(),
        answers.len() > 0,
        0 <= k < spec_candidates(game, depth, answers).len(),
    ensures
        spec_candidates(game, depth, answers)[k] < game.rows.len(),
{
    let tried = spec_candidates(game, depth, answers);
    if depth == 0 && game.opening is Some {
        let at = index_from(game.guess_words, game.opening.unwrap(), 0);
        lemma_index_from(game.guess_words, game.opening.unwrap(), 0);
        assert(tried[0] == at as usize);
    } else {
        lemma_rank_in_order(game.rows, answers, game.guesses, game.limit);
        let m = choose|m: int| 0 <= m < game.guesses.len() && game.guesses[m] == tried[k];
        assert(game.guesses[m] < game.rows.len());
    }
}

/// The largest `max` among subtrees is that of one of them.
proof fn lemma_deepest_reached(found: Seq<Option<Node>>, n: int) -> (i: int)
    requires
        0 < n <= found.len(),
        forall|k: int| 0 <= k < n ==> (#[trigger] found[k]) is Some,
    ensures
        0 <= i < n,
        found[i].unwrap().max == deepest(found, n) || deepest(found, n) == 0,
    decreases n,
{
    if n == 1 {
        assert(deepest(found, 0) == 0);
        0
    } else {
        let before = lemma_deepest_reached(found, n - 1);
        assert(found[n - 1] is Some);
        if found[n - 1].unwrap().max > deepest(found, n - 1) {
            n - 1
        } else {
            before
        }
    }
}

/// Some candidate needs as many guesses as the tree's `max` says.
pub proof fn lemma_max_is_reached(game: Game, depth: nat, answers: Seq<usize>)
    requires
        fair(game),
        (depth == 0 && game.opening is Some) ==> index_from(
            game.guess_words,
            game.opening.unwrap(),
            0,
        ) < game.guess_words.len(),
        answers.len() > 0,
        forall|k: int| 0 <= k < answers.len() ==> #[trigger] answers[k] < game.answer_words.len(),
        spec_solve(game, depth, answers) is Some,
    ensures
        exists|k: int|
            0 <= k < answers.len() && guesses_needed(
                spec_solve(game, depth, answers).unwrap(),
                game.answer_words[(#[trigger] answers[k]) as int]@,
            ) == spec_solve(game, depth, answers).unwrap().max,
    decreases game.max_depth - depth,
{
    let t = spec_solve(game, depth, answers).unwrap();
    let words = game.answer_words;
    if answers.len() == 1 {
        assert(guesses_needed(t, words[answers[0] as int]@) == t.max);
    } else {
        let tried = spec_candidates(game, depth, answers);
        lemma_best_is_tried(game, depth, answers, tried, tried.len());
        let k0 = choose|k: int|
            0 <= k < tried.len() && spec_best(game, depth, answers, tried, tried.len())
                == #[trigger] spec_evaluate(game, depth, answers, tried[k]);
        let g = tried[k0];
        lemma_tried_is_a_guess(game, depth, answers, k0);
        let row = game.rows[g as int];
        let groups = spec_partition(row, answers);
        let found = spec_outcomes(game, depth, groups, groups.len());
        lemma_outcomes(game, depth, groups, groups.len());
        lemma_groups_below(row, answers, CODES as nat);
        lemma_partition_exact(row, answers);
        lemma_size_upto(groups);
        assert(all_found(found));
        assert(groups.len() > 0) by {
            assert(answers.contains(answers[0]));
        }
        let top = lemma_deepest_reached(found, groups.len() as int);
        assert forall|i: int| 0 <= i < groups.len() implies 1 <= (#[trigger] found[i]).unwrap().max by {
            crate::search::lemma_solve_bounds(game, depth + 1, groups[i].answers);
        }
        lemma_deepest_covers(found, groups.len() as int, top);
        // a group that no guess resolves at once, with the deepest subtree
        let mut i = top;
        if group_code(groups[top]) == ALL_GREEN_CODE {
            lemma_candidate_cost(game, depth, answers, g, top, 0);
            let hit = groups[top].answers;
            assert forall|k: int| 0 <= k < hit.len() implies {
                &&& (#[trigger] hit[k]) < words.len()
                &&& words[hit[k] as int]@ == words[hit[0] as int]@
            } by {
                lemma_candidate_cost(game, depth, answers, g, top, k);
            }
            if hit.len() >= 2 {
                lemma_same_word_no_tree(game, depth + 1, hit);
            }
            assert(hit.len() == 1);
            assert(found[top].unwrap().max == 1);
            assert(groups.len() >= 2) by {
                if groups.len() == 1 {
                    assert(size_upto(groups, 1) == size_upto(groups, 0) + groups[0].answers.len());
                }
            }
            i = if top == 0 {
                1
            } else {
                0
            };
            assert(group_code(groups[i]) != ALL_GREEN_CODE) by {
                if i < top {
                    assert(group_code(groups[i]) < group_code(groups[top]));
                } else {
                    assert(group_code(groups[top]) < group_code(groups[i]));
                }
            }
            lemma_deepest_covers(found, groups.len() as int, i);
        }
        let sub = found[i].unwrap();
        assert(sub.max == deepest(found, groups.len() as int));
        let s = groups[i].answers;
        assert forall|j: int| 0 <= j < s.len() implies (#[trigger] s[j]) < words.len() by {
            lemma_candidate_cost(game, depth, answers, g, i, j);
        }
        lemma_max_is_reached(game, depth + 1, s);
        let j = choose|j: int|
            0 <= j < s.len() && guesses_needed(sub, words[(#[trigger] s[j]) as int]@) == sub.max;
        lemma_candidate_cost(game, depth, answers, g, i, j);
        lemma_members_code(row, answers, group_code(groups[i]), j);
        let k = choose|k: int| 0 <= k < answers.len() && answers[k] == s[j];
        assert(guesses_needed(t, words[answers[k] as int]@) == t.max);
    }
}

} // verus!
