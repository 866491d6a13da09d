//! Ordering guesses by how finely they divide the candidates.
//!
//! A guess is judged by the candidates it leaves unresolved, divided by the
//! number of groups it divides the candidates into. Lower is better. The
//! quotient is compared exactly, as a fraction. Guesses of equal quality keep
//! the order they came in, and only the best few are kept.

use vstd::prelude::*;
use crate::feedback::{Colors, ALL_GREEN_CODE, scoreToInt};
use crate::partition::{CODES, members, groups_below, spec_partition};

verus! {

/// The rows of a matrix as plain sequences.
pub open spec fn rows_of(matrix: Seq<Vec<Colors>>) -> Seq<Seq<Colors>> {
    matrix.map_values(|r: Vec<Colors>| r@)
}

/// Every guess has a row, and every row has a cell for every candidate.
pub open spec fn covers(rows: Seq<Seq<Colors>>, guesses: Seq<usize>, answers: Seq<usize>) -> bool {
    &&& forall|i: int| 0 <= i < guesses.len() ==> #[trigger] guesses[i] < rows.len()
    &&& forall|g: int, k: int|
        0 <= g < rows.len() && 0 <= k < answers.len() ==> #[trigger] answers[k]
            < (#[trigger] rows[g]).len()
}

/// The candidates that a guess with this row does not resolve at once.
pub open spec fn unresolved(row: Seq<Colors>, answers: Seq<usize>) -> nat {
    (answers.len() - members(row, answers, ALL_GREEN_CODE as nat).len()) as nat
}

/// The number of groups that a guess with this row divides the candidates into.
pub open spec fn spread(row: Seq<Colors>, answers: Seq<usize>) -> nat {
    spec_partition(row, answers).len()
}

/// The first fraction is smaller than the second.
pub open spec fn smaller(rest1: nat, groups1: nat, rest2: nat, groups2: nat) -> bool {
    rest1 * groups2 < rest2 * groups1
}

/// Guess `g` is strictly better than guess `h` for these candidates.
pub open spec fn better(rows: Seq<Seq<Colors>>, answers: Seq<usize>, g: usize, h: usize) -> bool {
    smaller(
        unresolved(rows[g as int], answers),
        spread(rows[g as int], answers),
        unresolved(rows[h as int], answers),
        spread(rows[h as int], answers),
    )
}

/// A ranked list with one more guess: it goes before the trailing guesses
/// that it is strictly better than, and after everything else.
pub open spec fn placed(
    rows: Seq<Seq<Colors>>,
    answers: Seq<usize>,
    ranked: Seq<usize>,
    g: usize,
) -> Seq<usize>
    decreases ranked.len(),
{
    if ranked.len() == 0 {
        seq![g]
    } else if better(rows, answers, g, ranked.last()) {
        placed(rows, answers, ranked.drop_last(), g).push(ranked.last())
    } else {
        ranked.push(g)
    }
}

/// The best `limit` guesses, best first, equal ones in the order of `guesses`.
pub open spec fn spec_rank(
    rows: Seq<Seq<Colors>>,
    answers: Seq<usize>,
    guesses: Seq<usize>,
    limit: nat,
) -> Seq<usize>
    decreases guesses.len(),
{
    if guesses.len() == 0 {
        Seq::empty()
    } else {
        let all = placed(
            rows,
            answers,
            spec_rank(rows, answers, guesses.drop_last(), limit),
            guesses.last(),
        );
        if all.len() > limit {
            all.take(limit as int)
        } else {
            all
        }
    }
}

/// No later guess of the list is strictly better than an earlier one.
pub open spec fn in_order(rows: Seq<Seq<Colors>>, answers: Seq<usize>, ranked: Seq<usize>) -> bool {
    forall|i: int, j: int|
        0 <= i < j < ranked.len() ==> !better(rows, answers, #[trigger] ranked[j], #[trigger] ranked[i])
}

/// Candidates that exist make at least one group.
pub proof fn lemma_spread_positive(row: Seq<Colors>, answers: Seq<usize>)
    requires
        answers.len() > 0,
    ensures
        spread(row, answers) > 0,
{
    let x = answers[0];
    assert(answers.contains(x));
    crate::partition::lemma_partition_exact(row, answers);
}

/// Fractions with positive denominators compare transitively.
proof fn lemma_not_smaller_chain(r1: nat, g1: nat, r2: nat, g2: nat, r3: nat, g3: nat)
    requires
        g1 > 0,
        g2 > 0,
        g3 > 0,
        !smaller(r2, g2, r1, g1),
        !smaller(r3, g3, r2, g2),
    ensures
        !smaller(r3, g3, r1, g1),
{
    assert(r1 * g2 <= r2 * g1);
    assert(r2 * g3 <= r3 * g2);
    assert((r1 * g2) * g3 <= (r2 * g1) * g3) by (nonlinear_arith)
        requires
            r1 * g2 <= r2 * g1,
    ;
    assert((r2 * g3) * g1 <= (r3 * g2) * g1) by (nonlinear_arith)
        requires
            r2 * g3 <= r3 * g2,
    ;
    assert((r2 * g1) * g3 == (r2 * g3) * g1) by (nonlinear_arith);
    assert((r1 * g2) * g3 == (r1 * g3) * g2) by (nonlinear_arith);
    assert((r3 * g2) * g1 == (r3 * g1) * g2) by (nonlinear_arith);
    assert(r1 * g3 <= r3 * g1) by (nonlinear_arith)
        requires
            (r1 * g3) * g2 <= (r3 * g1) * g2,
            g2 > 0,
    ;
}

/// Where a new guess lands: at `pos`, when it is strictly better than all
/// from `pos` on and not better than the one before.
proof fn lemma_placed_at(
    rows: Seq<Seq<Colors>>,
    answers: Seq<usize>,
    ranked: Seq<usize>,
    g: usize,
    pos: int,
)
    requires
        0 <= pos <= ranked.len(),
        forall|k: int| pos <= k < ranked.len() ==> better(rows, answers, g, #[trigger] ranked[k]),
        pos > 0 ==> !better(rows, answers, g, ranked[pos - 1]),
    ensures
        placed(rows, answers, ranked, g) == ranked.insert(pos, g),
    decreases ranked.len(),
{
    if ranked.len() == 0 {
        assert(ranked.insert(0, g) =~= seq![g]);
    } else if pos == ranked.len() {
        assert(ranked.insert(pos, g) =~= ranked.push(g));
    } else {
        assert(better(rows, answers, g, ranked[ranked.len() - 1]));
        lemma_placed_at(rows, answers, ranked.drop_last(), g, pos);
        assert(ranked.insert(pos, g) =~= ranked.drop_last().insert(pos, g).push(ranked.last()));
    }
}

/// Placing a guess keeps a list in order, and adds that guess and no other.
proof fn lemma_placed_in_order(
    rows: Seq<Seq<Colors>>,
    answers: Seq<usize>,
    ranked: Seq<usize>,
    g: usize,
)
    requires
        answers.len() > 0,
        in_order(rows, answers, ranked),
    ensures
        in_order(rows, answers, placed(rows, answers, ranked, g)),
        placed(rows, answers, ranked, g).len() == ranked.len() + 1,
        forall|i: int|
            0 <= i < placed(rows, answers, ranked, g).len() ==> (#[trigger] placed(
                rows,
                answers,
                ranked,
                g,
            )[i]) == g || ranked.contains(placed(rows, answers, ranked, g)[i]),
    decreases ranked.len(),
{
    let out = placed(rows, answers, ranked, g);
    if ranked.len() == 0 {
    } else if better(rows, answers, g, ranked.last()) {
        let front = ranked.drop_last();
        let last = ranked.last();
        assert forall|i: int, j: int| 0 <= i < j < front.len() implies !better(
            rows,
            answers,
            #[trigger] front[j],
            #[trigger] front[i],
        ) by {
            assert(front[i] == ranked[i] && front[j] == ranked[j]);
        }
        lemma_placed_in_order(rows, answers, front, g);
        let inner = placed(rows, answers, front, g);
        assert(out == inner.push(last));
        assert forall|i: int, j: int| 0 <= i < j < out.len() implies !better(
            rows,
            answers,
            #[trigger] out[j],
            #[trigger] out[i],
        ) by {
            if j < inner.len() {
                assert(out[i] == inner[i] && out[j] == inner[j]);
            } else {
                assert(out[j] == last);
                assert(out[i] == inner[i]);
                if inner[i] == g {
                    lemma_spread_positive(rows[g as int], answers);
                    lemma_spread_positive(rows[last as int], answers);
                    assert(!better(rows, answers, last, g)) by (nonlinear_arith)
                        requires
                            better(rows, answers, g, last),
                    ;
                } else {
                    let k = choose|k: int| 0 <= k < front.len() && front[k] == inner[i];
                    assert(ranked[k] == inner[i]);
                    assert(ranked[ranked.len() - 1] == last);
                }
            }
        }
        assert forall|i: int| 0 <= i < out.len() implies (#[trigger] out[i]) == g || ranked.contains(
            out[i],
        ) by {
            if i < inner.len() {
                assert(out[i] == inner[i]);
                if inner[i] != g {
                    let k = choose|k: int| 0 <= k < front.len() && front[k] == inner[i];
                    assert(ranked[k] == inner[i]);
                }
            } else {
                assert(ranked[ranked.len() - 1] == out[i]);
            }
        }
    } else {
        let last = ranked.last();
        assert(out == ranked.push(g));
        assert forall|i: int, j: int| 0 <= i < j < out.len() implies !better(
            rows,
            answers,
            #[trigger] out[j],
            #[trigger] out[i],
        ) by {
            if j < ranked.len() {
                assert(out[i] == ranked[i] && out[j] == ranked[j]);
            } else {
                assert(out[j] == g);
                assert(out[i] == ranked[i]);
                if i < ranked.len() - 1 {
                    assert(!better(rows, answers, ranked[ranked.len() - 1], ranked[i]));
                    lemma_spread_positive(rows[g as int], answers);
                    lemma_spread_positive(rows[last as int], answers);
                    lemma_spread_positive(rows[ranked[i] as int], answers);
                    lemma_not_smaller_chain(
                        unresolved(rows[ranked[i] as int], answers),
                        spread(rows[ranked[i] as int], answers),
                        unresolved(rows[last as int], answers),
                        spread(rows[last as int], answers),
                        unresolved(rows[g as int], answers),
                        spread(rows[g as int], answers),
                    );
                }
            }
        }
        assert forall|i: int| 0 <= i < out.len() implies (#[trigger] out[i]) == g || ranked.contains(
            out[i],
        ) by {
            if i < ranked.len() {
                assert(out[i] == ranked[i]);
            }
        }
    }
}

/// Where a placed guess lands, and what stands around it.
proof fn lemma_placed_somewhere(
    rows: Seq<Seq<Colors>>,
    answers: Seq<usize>,
    ranked: Seq<usize>,
    g: usize,
) -> (pos: int)
    ensures
        0 <= pos <= ranked.len(),
        placed(rows, answers, ranked, g) == ranked.insert(pos, g),
        forall|k: int| pos <= k < ranked.len() ==> better(rows, answers, g, #[trigger] ranked[k]),
        pos > 0 ==> !better(rows, answers, g, ranked[pos - 1]),
    decreases ranked.len(),
{
    if ranked.len() == 0 {
        lemma_placed_at(rows, answers, ranked, g, 0);
        0
    } else if better(rows, answers, g, ranked.last()) {
        let pos = lemma_placed_somewhere(rows, answers, ranked.drop_last(), g);
        assert forall|k: int| pos <= k < ranked.len() implies better(
            rows,
            answers,
            g,
            #[trigger] ranked[k],
        ) by {
            if k < ranked.len() - 1 {
                assert(ranked.drop_last()[k] == ranked[k]);
            }
        }
        if pos > 0 {
            assert(ranked.drop_last()[pos - 1] == ranked[pos - 1]);
        }
        lemma_placed_at(rows, answers, ranked, g, pos);
        pos
    } else {
        lemma_placed_at(rows, answers, ranked, g, ranked.len() as int);
        ranked.len() as int
    }
}

/// The ranking leaves out no guess that is better than one it holds.
///
/// Each guess of the pool is in the ranking, or else the ranking is full and
/// the guess is not strictly better than any guess in it.
pub proof fn lemma_rank_keeps_the_best(
    rows: Seq<Seq<Colors>>,
    answers: Seq<usize>,
    guesses: Seq<usize>,
    limit: nat,
    m: int,
)
    requires
        answers.len() > 0,
        0 <= m < guesses.len(),
    ensures
        spec_rank(rows, answers, guesses, limit).contains(guesses[m]) || (spec_rank(
            rows,
            answers,
            guesses,
            limit,
        ).len() == limit && forall|i: int|
            0 <= i < spec_rank(rows, answers, guesses, limit).len() ==> !better(
                rows,
                answers,
                guesses[m],
                #[trigger] spec_rank(rows, answers, guesses, limit)[i],
            )),
    decreases guesses.len(),
{
    let front = guesses.drop_last();
    let g = guesses.last();
    let x = guesses[m];
    let before = spec_rank(rows, answers, front, limit);
    let all = placed(rows, answers, before, g);
    let out = spec_rank(rows, answers, guesses, limit);
    lemma_rank_in_order(rows, answers, front, limit);
    lemma_placed_in_order(rows, answers, before, g);
    let pos = lemma_placed_somewhere(rows, answers, before, g);
    assert(all[pos] == g);
    assert forall|i: int| 0 <= i < out.len() implies out[i] == all[i] by {}
    // where `x` stands in `all`, if it does
    let mut at: int = -1;
    if m == guesses.len() - 1 {
        at = pos;
    } else {
        assert(front[m] == x);
        lemma_rank_keeps_the_best(rows, answers, front, limit, m);
        if before.contains(x) {
            let j = choose|j: int| 0 <= j < before.len() && before[j] == x;
            at = if j < pos {
                j
            } else {
                j + 1
            };
            assert(all[at] == x);
        }
    }
    if at >= 0 {
        if at < out.len() {
            assert(out[at] == x);
        } else {
            assert(out.len() == limit);
            assert forall|i: int| 0 <= i < out.len() implies !better(
                rows,
                answers,
                x,
                #[trigger] out[i],
            ) by {
                assert(!better(rows, answers, all[at], all[i]));
            }
        }
    } else {
        assert(before.len() == limit);
        assert(out.len() == limit);
        assert forall|i: int| 0 <= i < out.len() implies !better(
            rows,
            answers,
            x,
            #[trigger] out[i],
        ) by {
            if i < pos {
                assert(all[i] == before[i]);
            } else if i > pos {
                assert(all[i] == before[i - 1]);
            } else {
                let h = before[pos];
                assert(better(rows, answers, g, h));
                assert(!better(rows, answers, x, h));
                lemma_spread_positive(rows[g as int], answers);
                lemma_spread_positive(rows[h as int], answers);
                lemma_spread_positive(rows[x as int], answers);
                assert(!better(rows, answers, h, g)) by (nonlinear_arith)
                    requires
                        better(rows, answers, g, h),
                ;
                lemma_not_smaller_chain(
                    unresolved(rows[g as int], answers),
                    spread(rows[g as int], answers),
                    unresolved(rows[h as int], answers),
                    spread(rows[h as int], answers),
                    unresolved(rows[x as int], answers),
                    spread(rows[x as int], answers),
                );
            }
        }
    }
}

/// Guesses of equal quality keep the order of the pool.
///
/// Where an earlier guess of the ranking is not strictly better than a later
/// one, the earlier one also stands earlier in the pool: the positions
/// returned are such places.
pub proof fn lemma_rank_is_stable(
    rows: Seq<Seq<Colors>>,
    answers: Seq<usize>,
    guesses: Seq<usize>,
    limit: nat,
    i: int,
    j: int,
) -> (at: (int, int))
    requires
        answers.len() > 0,
        0 <= i < j < spec_rank(rows, answers, guesses, limit).len(),
        !better(
            rows,
            answers,
            spec_rank(rows, answers, guesses, limit)[i],
            spec_rank(rows, answers, guesses, limit)[j],
        ),
    ensures
        0 <= at.0 < at.1 < guesses.len(),
        guesses[at.0] == spec_rank(rows, answers, guesses, limit)[i],
        guesses[at.1] == spec_rank(rows, answers, guesses, limit)[j],
    decreases guesses.len(),
{
    let front = guesses.drop_last();
    let g = guesses.last();
    let before = spec_rank(rows, answers, front, limit);
    let all = placed(rows, answers, before, g);
    let out = spec_rank(rows, answers, guesses, limit);
    lemma_rank_in_order(rows, answers, front, limit);
    lemma_placed_in_order(rows, answers, before, g);
    let pos = lemma_placed_somewhere(rows, answers, before, g);
    assert(out[i] == all[i] && out[j] == all[j]);
    if j == pos {
        assert(all[j] == g);
        assert(all[i] == before[i]);
        assert(front.contains(before[i]));
        let p = choose|p: int| 0 <= p < front.len() && front[p] == before[i];
        assert(guesses[p] == front[p]);
        (p, guesses.len() - 1)
    } else if i == pos {
        assert(all[j] == before[j - 1]);
        assert(better(rows, answers, g, before[j - 1]));
        (0, 1)
    } else {
        let a = if i < pos {
            i
        } else {
            i - 1
        };
        let b = if j < pos {
            j
        } else {
            j - 1
        };
        assert(all[i] == before[a] && all[j] == before[b]);
        let found = lemma_rank_is_stable(rows, answers, front, limit, a, b);
        assert(guesses[found.0] == front[found.0] && guesses[found.1] == front[found.1]);
        found
    }
}

/// The ranking is in order, holds guesses of the pool only, and is as long
/// as the limit allows.
pub proof fn lemma_rank_in_order(
    rows: Seq<Seq<Colors>>,
    answers: Seq<usize>,
    guesses: Seq<usize>,
    limit: nat,
)
    requires
        answers.len() > 0,
    ensures
        in_order(rows, answers, spec_rank(rows, answers, guesses, limit)),
        spec_rank(rows, answers, guesses, limit).len() == if guesses.len() <= limit {
            guesses.len()
        } else {
            limit
        },
        forall|i: int|
            0 <= i < spec_rank(rows, answers, guesses, limit).len() ==> guesses.contains(
                #[trigger] spec_rank(rows, answers, guesses, limit)[i],
            ),
    decreases guesses.len(),
{
    if guesses.len() > 0 {
        let front = guesses.drop_last();
        let g = guesses.last();
        let before = spec_rank(rows, answers, front, limit);
        lemma_rank_in_order(rows, answers, front, limit);
        lemma_placed_in_order(rows, answers, before, g);
        let all = placed(rows, answers, before, g);
        let out = spec_rank(rows, answers, guesses, limit);
        assert forall|i: int| 0 <= i < out.len() implies guesses.contains(#[trigger] out[i]) by {
            assert(out[i] == all[i]);
            if all[i] == g {
                assert(guesses[guesses.len() - 1] == g);
            } else {
                let k = choose|k: int| 0 <= k < before.len() && before[k] == all[i];
                assert(front.contains(before[k]));
                let m = choose|m: int| 0 <= m < front.len() && front[m] == before[k];
                assert(guesses[m] == all[i]);
            }
        }
        assert forall|i: int, j: int| 0 <= i < j < out.len() implies !better(
            rows,
            answers,
            #[trigger] out[j],
            #[trigger] out[i],
        ) by {
            assert(out[i] == all[i] && out[j] == all[j]);
        }
    }
}

/// The two numbers a guess is judged by: the candidates it leaves
/// unresolved, and the groups it divides the candidates into.
pub fn quality(row: &Vec<Colors>, answers: &[usize]) -> (q: (usize, usize))
    requires
        forall|k: int| 0 <= k < answers@.len() ==> answers@[k] < row@.len(),
    ensures
        q.0 == unresolved(row@, answers@),
        q.1 == spread(row@, answers@),
        q.0 <= answers@.len(),
        q.1 <= CODES,
{
    let mut counts: Vec<usize> = Vec::new();
    let mut c: usize = 0;
    while c < CODES
        invariant
            c <= CODES,
            counts@.len() == c,
            forall|i: int| 0 <= i < c ==> #[trigger] counts@[i] == 0,
        decreases CODES - c,
    {
        counts.push(0);
        c += 1;
    }
    let n = answers.len();
    let mut k: usize = 0;
    while k < n
        invariant
            k <= n,
            n == answers@.len(),
            counts@.len() == CODES,
            forall|k: int| 0 <= k < answers@.len() ==> answers@[k] < row@.len(),
            forall|code: int|
                0 <= code < CODES ==> #[trigger] counts@[code] == members(
                    row@,
                    answers@.take(k as int),
                    code as nat,
                ).len(),
            forall|code: int| 0 <= code < CODES ==> #[trigger] counts@[code] <= k,
        decreases n - k,
    {
        let a = answers[k];
        let code = scoreToInt(&row[a]) as usize;
        proof {
            let next = answers@.take(k as int + 1);
            assert(next.drop_last() == answers@.take(k as int));
            assert(next.last() == a);
        }
        let seen = counts[code];
        counts.set(code, seen + 1);
        k += 1;
    }
    assert(answers@.take(n as int) == answers@);
    let mut groups: usize = 0;
    c = 0;
    while c < CODES
        invariant
            c <= CODES,
            counts@.len() == CODES,
            groups <= c,
            groups == groups_below(row@, answers@, c as nat).len(),
            forall|code: int|
                0 <= code < CODES ==> #[trigger] counts@[code] == members(
                    row@,
                    answers@,
                    code as nat,
                ).len(),
        decreases CODES - c,
    {
        if counts[c] > 0 {
            groups += 1;
        }
        c += 1;
    }
    let done = counts[ALL_GREEN_CODE as usize];
    assert(members(row@, answers@, ALL_GREEN_CODE as nat).len() <= n);
    (n - done, groups)
}

/// Whether the first fraction is smaller than the second.
pub fn is_smaller(rest1: usize, groups1: usize, rest2: usize, groups2: usize) -> (less: bool)
    ensures
        less == smaller(rest1 as nat, groups1 as nat, rest2 as nat, groups2 as nat),
{
    assert(rest1 * groups2 <= u64::MAX * u64::MAX) by (nonlinear_arith)
        requires
            rest1 <= u64::MAX,
            groups2 <= u64::MAX,
    ;
    assert(rest2 * groups1 <= u64::MAX * u64::MAX) by (nonlinear_arith)
        requires
            rest2 <= u64::MAX,
            groups1 <= u64::MAX,
    ;
    let left: u128 = (rest1 as u128) * (groups2 as u128);
    let right: u128 = (rest2 as u128) * (groups1 as u128);
    left < right
}

/// Where a guess of the given quality lands in a list ordered by quality: behind
/// every entry that it is not strictly better than.
fn landing(rests: &Vec<usize>, spreads: &Vec<usize>, rest: usize, groups: usize) -> (pos: usize)
    requires
        rests@.len() == spreads@.len(),
    ensures
        pos <= rests@.len(),
        forall|k: int|
            pos <= k < rests@.len() ==> smaller(
                rest as nat,
                groups as nat,
                #[trigger] rests@[k] as nat,
                spreads@[k] as nat,
            ),
        pos > 0 ==> !smaller(
            rest as nat,
            groups as nat,
            rests@[pos - 1] as nat,
            spreads@[pos - 1] as nat,
        ),
{
    let mut pos: usize = rests.len();
    while pos > 0 && is_smaller(rest, groups, rests[pos - 1], spreads[pos - 1])
        invariant
            pos <= rests@.len(),
            rests@.len() == spreads@.len(),
            forall|k: int|
                pos <= k < rests@.len() ==> smaller(
                    rest as nat,
                    groups as nat,
                    #[trigger] rests@[k] as nat,
                    spreads@[k] as nat,
                ),
        decreases pos,
    {
        pos -= 1;
    }
    pos
}

/// The best `limit` guesses for these candidates, best first.
pub fn rank(matrix: &Vec<Vec<Colors>>, guesses: &[usize], answers: &[usize], limit: usize) -> (top:
    Vec<usize>)
    requires
        covers(rows_of(matrix@), guesses@, answers@),
    ensures
        top@ == spec_rank(rows_of(matrix@), answers@, guesses@, limit as nat),
{
    let ghost rows = rows_of(matrix@);
    let mut top: Vec<usize> = Vec::new();
    let mut rests: Vec<usize> = Vec::new();
    let mut spreads: Vec<usize> = Vec::new();
    let n = guesses.len();
    let mut i: usize = 0;
    assert(guesses@.take(0) =~= Seq::<usize>::empty());
    while i < n
        invariant
            i <= n,
            n == guesses@.len(),
            rows == rows_of(matrix@),
            covers(rows, guesses@, answers@),
            top@ == spec_rank(rows, answers@, guesses@.take(i as int), limit as nat),
            top@.len() <= limit,
            top@.len() <= i,
            rests@.len() == top@.len(),
            spreads@.len() == top@.len(),
            forall|k: int|
                0 <= k < top@.len() ==> #[trigger] rests@[k] == unresolved(
                    rows[top@[k] as int],
                    answers@,
                ),
            forall|k: int|
                0 <= k < top@.len() ==> #[trigger] spreads@[k] == spread(
                    rows[top@[k] as int],
                    answers@,
                ),
        decreases n - i,
    {
        let g = guesses[i];
        assert(rows[g as int] == matrix@[g as int]@);
        let q = quality(&matrix[g], answers);
        let pos = landing(&rests, &spreads, q.0, q.1);
        proof {
            let next = guesses@.take(i as int + 1);
            assert(next.drop_last() == guesses@.take(i as int));
            assert(next.last() == g);
            if pos > 0 {
                assert(rests@[pos - 1] == unresolved(rows[top@[pos - 1] as int], answers@));
            }
            assert forall|k: int| pos <= k < top@.len() implies better(
                rows,
                answers@,
                g,
                #[trigger] top@[k],
            ) by {
                assert(rests@[k] == unresolved(rows[top@[k] as int], answers@));
            }
            lemma_placed_at(rows, answers@, top@, g, pos as int);
        }
        let ghost old_top = top@;
        let ghost old_rests = rests@;
        let ghost old_spreads = spreads@;
        top.insert(pos, g);
        rests.insert(pos, q.0);
        spreads.insert(pos, q.1);
        proof {
            assert forall|k: int| 0 <= k < top@.len() implies #[trigger] rests@[k] == unresolved(
                rows[top@[k] as int],
                answers@,
            ) by {
                if k < pos {
                    assert(rests@[k] == old_rests[k] && top@[k] == old_top[k]);
                } else if k > pos {
                    assert(rests@[k] == old_rests[k - 1] && top@[k] == old_top[k - 1]);
                }
            }
            assert forall|k: int| 0 <= k < top@.len() implies #[trigger] spreads@[k] == spread(
                rows[top@[k] as int],
                answers@,
            ) by {
                if k < pos {
                    assert(spreads@[k] == old_spreads[k] && top@[k] == old_top[k]);
                } else if k > pos {
                    assert(spreads@[k] == old_spreads[k - 1] && top@[k] == old_top[k - 1]);
                }
            }
        }
        if top.len() > limit {
            top.truncate(limit);
            rests.truncate(limit);
            spreads.truncate(limit);
            assert(top@ =~= spec_rank(rows, answers@, guesses@.take(i as int + 1), limit as nat));
        }
        i += 1;
    }
    assert(guesses@.take(n as int) == guesses@);
    top
}

} // verus!
