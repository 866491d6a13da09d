//! Feedback patterns: how a guess compares with an answer, letter by letter.
//!
//! A pattern holds one mark per position: `g` (right letter, right place),
//! `y` (right letter, wrong place) or `b` (no further copy of that letter).
//! A letter repeated in the guess is marked at most as often as it occurs in
//! the answer, exact matches first, then the rest from left to right.

use vstd::prelude::*;
use crate::word::Word;

verus! {

/// The mark for a letter that the answer has no further copy of.
pub const BLACK: u8 = 98;

/// The mark for a letter that the answer holds at another position.
pub const YELLOW: u8 = 121;

/// The mark for a letter that stands at the same position in the answer.
pub const GREEN: u8 = 103;

/// The code of the pattern with five green marks.
pub const ALL_GREEN_CODE: u8 = 242;

/// A feedback pattern, one mark for each position of the guess.
pub type Colors = [u8; 5];

/// How many positions below `n` hold `c` in `s` while `other` holds something else there.
pub open spec fn unmatched(s: Seq<u8>, other: Seq<u8>, c: u8, n: int) -> nat
    decreases n,
{
    if n <= 0 {
        0
    } else {
        unmatched(s, other, c, n - 1) + if s[n - 1] == c && other[n - 1] != c {
            1nat
        } else {
            0nat
        }
    }
}

/// How many positions below `n` hold `c` in both words.
pub open spec fn matched(s: Seq<u8>, other: Seq<u8>, c: u8, n: int) -> nat
    decreases n,
{
    if n <= 0 {
        0
    } else {
        matched(s, other, c, n - 1) + if s[n - 1] == c && other[n - 1] == c {
            1nat
        } else {
            0nat
        }
    }
}

/// How many positions below `n` hold `c`.
pub open spec fn occurrences(s: Seq<u8>, c: u8, n: int) -> nat
    decreases n,
{
    if n <= 0 {
        0
    } else {
        occurrences(s, c, n - 1) + if s[n - 1] == c {
            1nat
        } else {
            0nat
        }
    }
}

/// The mark at position `i`.
///
/// Green where the letters agree. Elsewhere yellow as long as the answer has
/// more copies of the letter outside exact matches than the guess has used up
/// to the left of `i`, and black after that.
pub open spec fn color_at(guess: Seq<u8>, answer: Seq<u8>, i: int) -> u8 {
    if guess[i] == answer[i] {
        GREEN
    } else if unmatched(guess, answer, guess[i], i) < unmatched(
        answer,
        guess,
        guess[i],
        answer.len() as int,
    ) {
        YELLOW
    } else {
        BLACK
    }
}

/// The feedback pattern of `guess` against `answer`.
pub open spec fn spec_score(guess: Seq<u8>, answer: Seq<u8>) -> Seq<u8> {
    Seq::new(guess.len(), |i: int| color_at(guess, answer, i))
}

/// A sequence of five marks.
pub open spec fn is_pattern(p: Seq<u8>) -> bool {
    &&& p.len() == 5
    &&& forall|i: int| 0 <= i < 5 ==> is_mark(#[trigger] p[i])
}

/// One of the three marks.
pub open spec fn is_mark(m: u8) -> bool {
    m == BLACK || m == YELLOW || m == GREEN
}

/// The base-3 digit of a mark: black 0, yellow 1, green 2, anything else 0.
pub open spec fn digit(m: u8) -> nat {
    if m == YELLOW {
        1
    } else if m == GREEN {
        2
    } else {
        0
    }
}

/// The pattern read as a base-3 number, first position least significant.
pub open spec fn pattern_code(p: Seq<u8>) -> nat {
    digit(p[0]) + 3 * digit(p[1]) + 9 * digit(p[2]) + 27 * digit(p[3]) + 81 * digit(p[4])
}

/// How many positions of the guess below `n` hold `c` and are marked green or yellow.
pub open spec fn marked(guess: Seq<u8>, answer: Seq<u8>, c: u8, n: int) -> nat
    decreases n,
{
    if n <= 0 {
        0
    } else {
        marked(guess, answer, c, n - 1) + if guess[n - 1] == c && color_at(guess, answer, n - 1)
            != BLACK {
            1nat
        } else {
            0nat
        }
    }
}

/// The smaller of two counts.
pub open spec fn least(a: nat, b: nat) -> nat {
    if a <= b {
        a
    } else {
        b
    }
}

/// Counting further never loses a position.
pub proof fn lemma_unmatched_grows(s: Seq<u8>, other: Seq<u8>, c: u8, m: int, n: int)
    requires
        m <= n,
    ensures
        unmatched(s, other, c, m) <= unmatched(s, other, c, n),
    decreases n - m,
{
    if m < n {
        lemma_unmatched_grows(s, other, c, m, n - 1);
    }
}

/// Every count below the total is the count at some position that itself counts.
pub proof fn lemma_unmatched_reaches(s: Seq<u8>, other: Seq<u8>, c: u8, n: int, r: nat) -> (j: int)
    requires
        r < unmatched(s, other, c, n),
    ensures
        0 <= j < n,
        s[j] == c,
        other[j] != c,
        unmatched(s, other, c, j) == r,
    decreases n,
{
    if s[n - 1] == c && other[n - 1] != c && unmatched(s, other, c, n - 1) == r {
        n - 1
    } else {
        lemma_unmatched_reaches(s, other, c, n - 1, r)
    }
}

/// The feedback pattern of `guess` against `answer`.
pub fn score(guess: Word, answer: Word) -> (colors: Colors)
    ensures
        colors@ == spec_score(guess@, answer@),
        is_pattern(colors@),
{
    let mut colors: Colors = [BLACK, BLACK, BLACK, BLACK, BLACK];
    let mut used: [bool; 5] = [false, false, false, false, false];
    let ghost g = guess@;
    let ghost a = answer@;

    let mut i: usize = 0;
    while i < 5
        invariant
            0 <= i <= 5,
            g == guess@,
            a == answer@,
            forall|k: int| 0 <= k < i ==> used@[k] == (g[k] == a[k]),
            forall|k: int| i <= k < 5 ==> !used@[k],
            forall|k: int| 0 <= k < i ==> colors@[k] == if g[k] == a[k] { GREEN } else { BLACK },
            forall|k: int| i <= k < 5 ==> colors@[k] == BLACK,
        decreases 5 - i,
    {
        if guess[i] == answer[i] {
            colors[i] = GREEN;
            used[i] = true;
        }
        i += 1;
    }

    i = 0;
    while i < 5
        invariant
            0 <= i <= 5,
            g == guess@,
            a == answer@,
            forall|k: int|
                0 <= k < 5 ==> (#[trigger] used@[k] <==> (g[k] == a[k] || unmatched(a, g, a[k], k)
                    < unmatched(g, a, a[k], i as int))),
            forall|k: int| 0 <= k < i ==> #[trigger] colors@[k] == color_at(g, a, k),
            forall|k: int|
                i <= k < 5 ==> #[trigger] colors@[k] == if g[k] == a[k] {
                    GREEN
                } else {
                    BLACK
                },
        decreases 5 - i,
    {
        let c = guess[i];
        if c != answer[i] {
            let ghost seen = unmatched(g, a, c, i as int);
            let mut j: usize = 0;
            let mut found = false;
            while j < 5 && !found
                invariant
                    0 <= j <= 5,
                    0 <= i < 5,
                    a == answer@,
                    c == g[i as int],
                    !found ==> forall|k: int| 0 <= k < j ==> used@[k] || a[k] != c,
                    found ==> j < 5 && !used@[j as int] && a[j as int] == c && forall|k: int|
                        0 <= k < j ==> used@[k] || a[k] != c,
                decreases 5 - j + if found { 0int } else { 1int },
            {
                if !used[j] && answer[j] == c {
                    found = true;
                } else {
                    j += 1;
                }
            }
            if found {
                proof {
                    let rank = unmatched(a, g, c, j as int);
                    assert(rank >= seen);
                    if rank > seen {
                        let k = lemma_unmatched_reaches(a, g, c, j as int, seen);
                        assert(used@[k] || a[k] != c);
                    }
                    assert(rank == seen);
                    lemma_unmatched_grows(a, g, c, j as int + 1, 5);
                    assert(color_at(g, a, i as int) == YELLOW);
                    assert forall|k: int| 0 <= k < 5 && k != j && a[k] == c && g[k] != c implies unmatched(
                        a,
                        g,
                        c,
                        k,
                    ) != seen by {
                        if k < j {
                            lemma_unmatched_grows(a, g, c, k + 1, j as int);
                        } else {
                            lemma_unmatched_grows(a, g, c, j as int + 1, k);
                        }
                    }
                }
                colors[i] = YELLOW;
                used[j] = true;
            } else {
                proof {
                    if seen < unmatched(a, g, c, 5) {
                        let k = lemma_unmatched_reaches(a, g, c, 5, seen);
                        assert(used@[k] || a[k] != c);
                    }
                    assert(color_at(g, a, i as int) == BLACK);
                }
            }
        }
        i += 1;
    }
    assert(colors@ =~= spec_score(g, a));
    colors
}

/// The value of a digit at position `i`: 3 to the power of `i`.
pub open spec fn weight(i: int) -> nat {
    if i <= 0 {
        1
    } else if i == 1 {
        3
    } else if i == 2 {
        9
    } else if i == 3 {
        27
    } else if i == 4 {
        81
    } else {
        243
    }
}

/// The part of the code that the first `n` marks make up.
pub open spec fn code_upto(p: Seq<u8>, n: int) -> nat {
    (if n > 0 {
        digit(p[0])
    } else {
        0
    }) + (if n > 1 {
        3 * digit(p[1])
    } else {
        0
    }) + (if n > 2 {
        9 * digit(p[2])
    } else {
        0
    }) + (if n > 3 {
        27 * digit(p[3])
    } else {
        0
    }) + (if n > 4 {
        81 * digit(p[4])
    } else {
        0
    })
}

/// The pattern as a number below 243: base 3, first position least significant.
#[allow(non_snake_case)]
pub fn scoreToInt(w: &Colors) -> (code: u8)
    ensures
        code == pattern_code(w@),
        code <= ALL_GREEN_CODE,
{
    let mut s: u8 = 0;
    let mut power: u8 = 1;
    let mut i: usize = 0;
    while i < 5
        invariant
            0 <= i <= 5,
            power == weight(i as int),
            s == code_upto(w@, i as int),
        decreases 5 - i,
    {
        let v: u8 = if w[i] == YELLOW {
            1
        } else if w[i] == GREEN {
            2
        } else {
            0
        };
        s = s + v * power;
        if i < 4 {
            power = power * 3;
        } else {
            power = 243;
        }
        i += 1;
    }
    s
}

/// A guess never marks a letter more often than the answer holds it.
///
/// The positions of `guess` that hold `c` and are marked green or yellow are
/// as many as the smaller of the two counts of `c`, in the guess and in the
/// answer.
pub proof fn lemma_marks_bounded_by_answer(guess: Seq<u8>, answer: Seq<u8>, c: u8)
    requires
        guess.len() == answer.len(),
    ensures
        marked(guess, answer, c, guess.len() as int) <= occurrences(answer, c, answer.len() as int),
        marked(guess, answer, c, guess.len() as int) == least(
            occurrences(guess, c, guess.len() as int),
            occurrences(answer, c, answer.len() as int),
        ),
{
    let n = guess.len() as int;
    lemma_marked_prefix(guess, answer, c, n);
    lemma_occurrences_split(guess, answer, c, n);
    lemma_occurrences_split(answer, guess, c, n);
    lemma_matched_symmetric(guess, answer, c, n);
}

/// Over a prefix, the marked positions are the exact matches plus as many of
/// the others as the answer can still pay for.
proof fn lemma_marked_prefix(guess: Seq<u8>, answer: Seq<u8>, c: u8, n: int)
    requires
        0 <= n <= guess.len(),
        guess.len() == answer.len(),
    ensures
        marked(guess, answer, c, n) == matched(guess, answer, c, n) + least(
            unmatched(guess, answer, c, n),
            unmatched(answer, guess, c, answer.len() as int),
        ),
    decreases n,
{
    if n > 0 {
        lemma_marked_prefix(guess, answer, c, n - 1);
    }
}

/// The copies of a letter are those that match and those that do not.
proof fn lemma_occurrences_split(s: Seq<u8>, other: Seq<u8>, c: u8, n: int)
    ensures
        occurrences(s, c, n) == matched(s, other, c, n) + unmatched(s, other, c, n),
    decreases n,
{
    if n > 0 {
        lemma_occurrences_split(s, other, c, n - 1);
    }
}

/// Exact matches are counted the same from either word.
proof fn lemma_matched_symmetric(s: Seq<u8>, other: Seq<u8>, c: u8, n: int)
    ensures
        matched(s, other, c, n) == matched(other, s, c, n),
    decreases n,
{
    if n > 0 {
        lemma_matched_symmetric(s, other, c, n - 1);
    }
}

/// A score is a pattern, whatever the two words hold.
pub proof fn lemma_score_is_pattern(guess: Seq<u8>, answer: Seq<u8>)
    requires
        guess.len() == 5,
    ensures
        is_pattern(spec_score(guess, answer)),
{
}

/// Five green marks, and nothing else, are what a word scores against itself.
pub proof fn lemma_all_green_iff_same(guess: Seq<u8>, answer: Seq<u8>)
    requires
        guess.len() == 5,
        answer.len() == 5,
    ensures
        pattern_code(spec_score(guess, answer)) == ALL_GREEN_CODE <==> guess == answer,
{
    let p = spec_score(guess, answer);
    if guess == answer {
        assert(p[0] == GREEN && p[1] == GREEN && p[2] == GREEN && p[3] == GREEN && p[4] == GREEN);
    }
    if pattern_code(p) == ALL_GREEN_CODE {
        assert(p[0] == GREEN && p[1] == GREEN && p[2] == GREEN && p[3] == GREEN && p[4] == GREEN);
        assert(guess =~= answer);
    }
}

/// Two patterns with the same code are the same pattern.
pub proof fn lemma_code_injective(p: Seq<u8>, q: Seq<u8>)
    requires
        is_pattern(p),
        is_pattern(q),
        pattern_code(p) == pattern_code(q),
    ensures
        p == q,
{
    assert(is_mark(p[0]) && is_mark(p[1]) && is_mark(p[2]) && is_mark(p[3]) && is_mark(p[4]));
    assert(is_mark(q[0]) && is_mark(q[1]) && is_mark(q[2]) && is_mark(q[3]) && is_mark(q[4]));
    assert(digit(p[0]) == digit(q[0]));
    assert(digit(p[1]) == digit(q[1]));
    assert(digit(p[2]) == digit(q[2]));
    assert(digit(p[3]) == digit(q[3]));
    assert(digit(p[4]) == digit(q[4]));
    assert(p =~= q);
}

} // verus!
