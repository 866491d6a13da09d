//! What the feedback seen so far says about the answer.
//!
//! A state holds, for each position, the set of letters still possible
//! there, and the set of letters that the answer must hold somewhere. Each set
//! is a mask of 26 bits. The state depends only on what was learned, not on
//! the guesses that taught it, so it can serve as a key for sharing subtrees.

use vstd::prelude::*;
use crate::word::{Word, is_letter, is_word};
use crate::feedback::{
    Colors,
    BLACK,
    GREEN,
    YELLOW,
    color_at,
    lemma_unmatched_grows,
    lemma_unmatched_reaches,
    score,
    spec_score,
    unmatched,
};

verus! {

/// The mask with a bit for each of the 26 letters.
pub const ALL_LETTERS: u32 = 0x3ff_ffff;

/// The code of the letter `a`.
pub const FIRST_LETTER: u8 = 97;

/// Whether bit `j` of `m` is set.
pub open spec fn bit(m: u32, j: u32) -> bool {
    (m >> j) & 1 == 1
}

/// Whether the mask holds the letter `c`.
pub open spec fn holds(m: u32, c: u8) -> bool {
    is_letter(c) && bit(m, (c - 97) as u32)
}

/// Whether `c` stands at one of the first `n` positions of the guess with a
/// mark that is not black.
pub open spec fn marked_upto(guess: Seq<u8>, colors: Seq<u8>, c: u8, n: int) -> bool {
    ||| 0 < n && guess[0] == c && colors[0] != BLACK
    ||| 1 < n && guess[1] == c && colors[1] != BLACK
    ||| 2 < n && guess[2] == c && colors[2] != BLACK
    ||| 3 < n && guess[3] == c && colors[3] != BLACK
    ||| 4 < n && guess[4] == c && colors[4] != BLACK
}

/// Whether `c` stands at one of the first `n` positions of the word.
pub open spec fn occurs_upto(w: Seq<u8>, c: u8, n: int) -> bool {
    ||| 0 < n && w[0] == c
    ||| 1 < n && w[1] == c
    ||| 2 < n && w[2] == c
    ||| 3 < n && w[3] == c
    ||| 4 < n && w[4] == c
}

/// The feedback shows that the answer holds `c`: a copy in the guess is
/// marked green or yellow.
pub open spec fn shown(guess: Seq<u8>, colors: Seq<u8>, c: u8) -> bool {
    marked_upto(guess, colors, c, 5)
}

/// The feedback shows that the answer does not hold `c`: the guess holds
/// it, and every copy is marked black.
pub open spec fn ruled_out(guess: Seq<u8>, colors: Seq<u8>, c: u8) -> bool {
    occurs_upto(guess, c, 5) && !shown(guess, colors, c)
}

/// Whether the feedback leaves `c` possible at position `p`.
pub open spec fn keeps(guess: Seq<u8>, colors: Seq<u8>, p: int, c: u8) -> bool {
    &&& !ruled_out(guess, colors, c)
    &&& if colors[p] == GREEN {
        c == guess[p]
    } else {
        c != guess[p]
    }
}

/// The word has five letters, each possible at its position, and holds every
/// required letter.
pub open spec fn allowed(possible: Seq<u32>, required: u32, w: Seq<u8>) -> bool {
    &&& w.len() == 5
    &&& forall|p: int| 0 <= p < 5 ==> holds(#[trigger] possible[p], w[p])
    &&& forall|c: u8| #[trigger] holds(required, c) ==> occurs_upto(w, c, 5)
}

/// What is known about the answer.
#[derive(Clone, Copy, Debug, PartialEq, Eq)]
pub struct ConstraintState {
    /// For each position, the letters still possible there.
    pub possible: [u32; 5],
    /// The letters that the answer holds somewhere.
    pub required: u32,
}

impl ConstraintState {
    /// No position has run out of letters, and no mask holds anything but letters.
    pub open spec fn wf(&self) -> bool {
        &&& forall|p: int| 0 <= p < 5 ==> #[trigger] self.possible@[p] != 0
        &&& forall|p: int| 0 <= p < 5 ==> #[trigger] self.possible@[p] <= ALL_LETTERS
        &&& self.required <= ALL_LETTERS
    }

    /// The word agrees with everything the state knows.
    pub open spec fn admits(&self, w: Seq<u8>) -> bool {
        allowed(self.possible@, self.required, w)
    }

    /// This state is `before` with the feedback `colors` for `guess` taken in.
    ///
    /// A letter stays possible at a position if it was possible there and
    /// the feedback leaves it so. A letter is required if it was, or if the
    /// feedback shows it.
    pub open spec fn refines(
        &self,
        before: ConstraintState,
        guess: Seq<u8>,
        colors: Seq<u8>,
    ) -> bool {
        &&& forall|p: int, c: u8|
            0 <= p < 5 ==> (#[trigger] holds(self.possible@[p], c) <==> holds(before.possible@[p], c)
                && keeps(guess, colors, p, c))
        &&& forall|c: u8|
            #[trigger] holds(self.required, c) <==> holds(before.required, c) || (is_letter(c) && shown(
                guess,
                colors,
                c,
            ))
        &&& forall|p: int| 0 <= p < 5 ==> #[trigger] self.possible@[p] <= ALL_LETTERS
        &&& self.required <= ALL_LETTERS
    }

    /// The state before any feedback: every letter is possible everywhere,
    /// none is required.
    pub fn new() -> (state: ConstraintState)
        ensures
            state.possible@ == seq![ALL_LETTERS, ALL_LETTERS, ALL_LETTERS, ALL_LETTERS, ALL_LETTERS],
            state.required == 0,
            state.wf(),
            forall|w: Seq<u8>| is_word(w) ==> #[trigger] state.admits(w),
            forall|p: int, c: u8| 0 <= p < 5 && is_letter(c) ==> #[trigger] holds(state.possible@[p], c),
            forall|c: u8| !#[trigger] holds(state.required, c),
    {
        let state = ConstraintState {
            possible: [ALL_LETTERS, ALL_LETTERS, ALL_LETTERS, ALL_LETTERS, ALL_LETTERS],
            required: 0,
        };
        assert(state.possible@ =~= seq![
            ALL_LETTERS,
            ALL_LETTERS,
            ALL_LETTERS,
            ALL_LETTERS,
            ALL_LETTERS,
        ]);
        proof {
            assert forall|c: u8| is_letter(c) implies bit(ALL_LETTERS, (c - 97) as u32) by {
                lemma_all_letters((c - 97) as u32);
            }
            assert forall|c: u8| !#[trigger] holds(state.required, c) by {
                if is_letter(c) {
                    lemma_no_bits((c - 97) as u32);
                }
            }
            assert forall|w: Seq<u8>| is_word(w) implies #[trigger] state.admits(w) by {
                assert forall|p: int| 0 <= p < 5 implies holds(#[trigger] state.possible@[p], w[p]) by {
                    assert(is_letter(w[p]));
                }
            }
        }
        state
    }

    /// Whether no position has run out of letters.
    pub fn is_consistent(&self) -> (ok: bool)
        ensures
            ok == (forall|p: int| 0 <= p < 5 ==> #[trigger] self.possible@[p] != 0),
    {
        self.possible[0] != 0 && self.possible[1] != 0 && self.possible[2] != 0 && self.possible[3]
            != 0 && self.possible[4] != 0
    }

    /// Whether two states know the same.
    pub fn same(&self, other: &ConstraintState) -> (same: bool)
        ensures
            same == (self.possible@ == other.possible@ && self.required == other.required),
    {
        let same = self.possible[0] == other.possible[0] && self.possible[1] == other.possible[1]
            && self.possible[2] == other.possible[2] && self.possible[3] == other.possible[3]
            && self.possible[4] == other.possible[4] && self.required == other.required;
        assert(same == (self.possible@ =~= other.possible@ && self.required == other.required));
        same
    }

    /// Whether the word agrees with everything the state knows.
    pub fn could_be_answer(&self, word: &Word) -> (ok: bool)
        ensures
            ok == self.admits(word@),
    {
        let mut present: u32 = 0;
        let mut p: usize = 0;
        assert forall|j: u32| j < 26 implies !bit(present, j) by {
            lemma_no_bits(j);
        }
        while p < 5
            invariant
                p <= 5,
                forall|q: int| 0 <= q < p ==> holds(#[trigger] self.possible@[q], word@[q]),
                forall|j: u32| j < 26 ==> (#[trigger] bit(present, j) <==> occurs_upto(
                    word@,
                    (j + 97) as u8,
                    p as int,
                )),
            decreases 5 - p,
        {
            let c = word[p];
            if c < FIRST_LETTER || c > 122 {
                assert(!holds(self.possible@[p as int], word@[p as int]));
                return false;
            }
            let k: u32 = (c - FIRST_LETTER) as u32;
            if (self.possible[p] >> k) & 1 != 1 {
                assert(!holds(self.possible@[p as int], word@[p as int]));
                return false;
            }
            let ghost before = present;
            present = present | (1u32 << k);
            proof {
                assert forall|j: u32| j < 26 implies (#[trigger] bit(present, j) <==> occurs_upto(
                    word@,
                    (j + 97) as u8,
                    p as int + 1,
                )) by {
                    lemma_set_bit(before, k, j);
                    assert(bit(before, j) <==> occurs_upto(word@, (j + 97) as u8, p as int));
                }
            }
            p += 1;
        }
        let mut j: u32 = 0;
        while j < 26
            invariant
                j <= 26,
                forall|q: int| 0 <= q < 5 ==> holds(#[trigger] self.possible@[q], word@[q]),
                forall|i: u32| i < 26 ==> (#[trigger] bit(present, i) <==> occurs_upto(
                    word@,
                    (i + 97) as u8,
                    5,
                )),
                forall|i: u32| i < j ==> (#[trigger] bit(self.required, i) ==> bit(present, i)),
            decreases 26 - j,
        {
            if (self.required >> j) & 1 == 1 && (present >> j) & 1 != 1 {
                proof {
                    let c = (j + 97) as u8;
                    assert(bit(self.required, j));
                    assert(!bit(present, j));
                    assert(holds(self.required, c));
                    assert(!occurs_upto(word@, c, 5));
                }
                return false;
            }
            j += 1;
        }
        proof {
            assert forall|c: u8| #[trigger] holds(self.required, c) implies occurs_upto(word@, c, 5) by {
                let i = (c - 97) as u32;
                assert(bit(self.required, i) ==> bit(present, i));
                assert((i + 97) as u8 == c);
            }
        }
        true
    }

    /// The state with the feedback `colors` for `guess` taken in.
    ///
    /// Feedback that contradicts the state leaves a position without
    /// letters, which `is_consistent` tells.
    pub fn refine(&self, guess: &Word, colors: &Colors) -> (next: ConstraintState)
        requires
            is_word(guess@),
            forall|p: int| 0 <= p < 5 ==> #[trigger] self.possible@[p] <= ALL_LETTERS,
            self.required <= ALL_LETTERS,
        ensures
            next.refines(*self, guess@, colors@),
    {
        let ghost g = guess@;
        let ghost col = colors@;
        let mut marks: u32 = 0;
        let mut guessed: u32 = 0;
        let mut j: usize = 0;
        assert forall|i: u32| i < 26 implies !bit(0u32, i) by {
            lemma_no_bits(i);
        }
        while j < 5
            invariant
                j <= 5,
                g == guess@,
                col == colors@,
                is_word(g),
                marks <= ALL_LETTERS,
                guessed <= ALL_LETTERS,
                forall|c: u8|
                    is_letter(c) ==> (#[trigger] holds(marks, c) <==> marked_upto(
                        g,
                        col,
                        c,
                        j as int,
                    )),
                forall|c: u8|
                    is_letter(c) ==> (#[trigger] holds(guessed, c) <==> occurs_upto(g, c, j as int)),
            decreases 5 - j,
        {
            let letter = guess[j];
            assert(is_letter(g[j as int]));
            let k: u32 = (letter - FIRST_LETTER) as u32;
            let ghost marks_before = marks;
            let ghost guessed_before = guessed;
            if colors[j] != BLACK {
                marks = marks | (1u32 << k);
            }
            guessed = guessed | (1u32 << k);
            proof {
                lemma_set_keeps_letters(marks_before, k);
                lemma_set_keeps_letters(guessed_before, k);
                assert forall|c: u8| is_letter(c) implies (#[trigger] holds(marks, c) <==> marked_upto(
                    g,
                    col,
                    c,
                    j as int + 1,
                )) by {
                    lemma_set_bit(marks_before, k, (c - 97) as u32);
                    assert(holds(marks_before, c) <==> marked_upto(g, col, c, j as int));
                }
                assert forall|c: u8| is_letter(c) implies (#[trigger] holds(guessed, c) <==> occurs_upto(
                    g,
                    c,
                    j as int + 1,
                )) by {
                    lemma_set_bit(guessed_before, k, (c - 97) as u32);
                    assert(holds(guessed_before, c) <==> occurs_upto(g, c, j as int));
                }
            }
            j += 1;
        }
        let gone: u32 = guessed & !marks;
        proof {
            assert forall|c: u8| is_letter(c) implies (#[trigger] holds(gone, c) <==> ruled_out(
                g,
                col,
                c,
            )) by {
                lemma_clear_bits(guessed, marks, (c - 97) as u32);
                assert(holds(guessed, c) <==> occurs_upto(g, c, 5));
                assert(holds(marks, c) <==> marked_upto(g, col, c, 5));
            }
        }
        let mut possible: [u32; 5] = self.possible;
        let mut p: usize = 0;
        while p < 5
            invariant
                p <= 5,
                g == guess@,
                col == colors@,
                is_word(g),
                forall|c: u8|
                    is_letter(c) ==> (#[trigger] holds(gone, c) <==> ruled_out(g, col, c)),
                forall|q: int| p <= q < 5 ==> #[trigger] possible@[q] == self.possible@[q],
                forall|q: int| 0 <= q < 5 ==> #[trigger] possible@[q] <= ALL_LETTERS,
                forall|q: int, c: u8|
                    0 <= q < p ==> (#[trigger] holds(possible@[q], c) <==> holds(self.possible@[q], c)
                        && keeps(g, col, q, c)),
            decreases 5 - p,
        {
            let letter = guess[p];
            assert(is_letter(g[p as int]));
            let k: u32 = (letter - FIRST_LETTER) as u32;
            let old_mask = possible[p];
            let left: u32 = old_mask & !gone;
            let ghost snapshot = possible@;
            let new_mask: u32 = if colors[p] == GREEN {
                left & (1u32 << k)
            } else {
                left & !(1u32 << k)
            };
            possible[p] = new_mask;
            proof {
                lemma_and_shrinks(old_mask, !gone);
                lemma_and_shrinks(left, 1u32 << k);
                lemma_and_shrinks(left, !(1u32 << k));
                assert forall|c: u8| #[trigger] holds(new_mask, c) <==> holds(self.possible@[p as int], c)
                    && keeps(g, col, p as int, c) by {
                    if is_letter(c) {
                        let i = (c - 97) as u32;
                        lemma_clear_bits(old_mask, gone, i);
                        lemma_keep_bit(left, k, i);
                        lemma_drop_bit(left, k, i);
                        assert(holds(gone, c) <==> ruled_out(g, col, c));
                        assert(i == k <==> c == g[p as int]);
                    }
                }
                assert forall|q: int, c: u8| 0 <= q < p + 1 implies (#[trigger] holds(possible@[q], c)
                    <==> holds(self.possible@[q], c) && keeps(g, col, q, c)) by {
                    if q < p {
                        assert(possible@[q] == snapshot[q]);
                    }
                }
            }
            p += 1;
        }
        let required: u32 = self.required | marks;
        proof {
            lemma_or_keeps_letters(self.required, marks);
            assert forall|c: u8| #[trigger] holds(required, c) <==> holds(self.required, c) || (is_letter(c)
                && shown(g, col, c)) by {
                if is_letter(c) {
                    lemma_or_bits(self.required, marks, (c - 97) as u32);
                    assert(holds(marks, c) <==> marked_upto(g, col, c, 5));
                }
            }
        }
        ConstraintState { possible, required }
    }

    /// The state after guessing `guess` when the answer is `answer`.
    ///
    /// The answer stays admitted, so no position runs out of letters.
    pub fn advance(&self, guess: &Word, answer: &Word) -> (next: ConstraintState)
        requires
            self.wf(),
            is_word(guess@),
            self.admits(answer@),
        ensures
            next.refines(*self, guess@, spec_score(guess@, answer@)),
            next.admits(answer@),
            next.wf(),
    {
        let colors = score(*guess, *answer);
        let next = self.refine(guess, &colors);
        proof {
            lemma_refined_admits(*self, next, guess@, answer@);
            assert forall|p: int| 0 <= p < 5 implies #[trigger] next.possible@[p] != 0 by {
                assert(holds(next.possible@[p], answer@[p]));
                lemma_bit_means_nonzero(next.possible@[p], (answer@[p] - 97) as u32);
            }
        }
        next
    }
}

/// Feedback never rules out the word that gave it.
///
/// At each position the feedback leaves the word's own letter possible, and
/// every letter that it shows is in the word.
pub proof fn lemma_feedback_agrees(guess: Seq<u8>, w: Seq<u8>)
    requires
        guess.len() == 5,
        w.len() == 5,
    ensures
        forall|p: int| 0 <= p < 5 ==> keeps(guess, spec_score(guess, w), p, #[trigger] w[p]),
        forall|c: u8| #[trigger] shown(guess, spec_score(guess, w), c) ==> occurs_upto(w, c, 5),
{
    let colors = spec_score(guess, w);
    assert forall|c: u8| #[trigger] shown(guess, colors, c) implies occurs_upto(w, c, 5) by {
        let j = if guess[0] == c && colors[0] != BLACK {
            0int
        } else if guess[1] == c && colors[1] != BLACK {
            1int
        } else if guess[2] == c && colors[2] != BLACK {
            2int
        } else if guess[3] == c && colors[3] != BLACK {
            3int
        } else {
            4int
        };
        assert(guess[j] == c && colors[j] == color_at(guess, w, j));
        if guess[j] != w[j] {
            let k = lemma_unmatched_reaches(w, guess, c, 5, 0);
            assert(w[k] == c);
        }
    }
    assert forall|p: int| 0 <= p < 5 implies keeps(guess, colors, p, #[trigger] w[p]) by {
        let c = w[p];
        assert(colors[p] == color_at(guess, w, p));
        if occurs_upto(guess, c, 5) && !shown(guess, colors, c) {
            let j0 = if guess[0] == c {
                0int
            } else if guess[1] == c {
                1int
            } else if guess[2] == c {
                2int
            } else if guess[3] == c {
                3int
            } else {
                4int
            };
            assert(guess[j0] == c);
            assert(colors[j0] == color_at(guess, w, j0));
            assert(colors[j0] == BLACK);
            assert(guess[p] != c);
            lemma_unmatched_grows(w, guess, c, p + 1, 5);
            assert(unmatched(w, guess, c, p + 1) >= 1);
            lemma_unmatched_grows(guess, w, c, j0 + 1, 5);
            assert(unmatched(guess, w, c, j0 + 1) >= 1);
            let j1 = lemma_unmatched_reaches(guess, w, c, j0 + 1, 0);
            assert(colors[j1] == color_at(guess, w, j1));
            assert(colors[j1] == YELLOW);
        }
    }
}

/// A state refined by the feedback of a word that it admitted still admits it.
pub proof fn lemma_refined_admits(
    before: ConstraintState,
    next: ConstraintState,
    guess: Seq<u8>,
    w: Seq<u8>,
)
    requires
        guess.len() == 5,
        before.admits(w),
        next.refines(before, guess, spec_score(guess, w)),
    ensures
        next.admits(w),
{
    lemma_feedback_agrees(guess, w);
    let colors = spec_score(guess, w);
    assert forall|p: int| 0 <= p < 5 implies holds(#[trigger] next.possible@[p], w[p]) by {
        assert(holds(before.possible@[p], w[p]));
        assert(keeps(guess, colors, p, w[p]));
    }
    assert forall|c: u8| #[trigger] holds(next.required, c) implies occurs_upto(w, c, 5) by {
        if holds(before.required, c) {
        } else {
            assert(shown(guess, colors, c));
        }
    }
}

/// Refining only ever takes words away.
pub proof fn lemma_refined_admits_less(
    before: ConstraintState,
    next: ConstraintState,
    guess: Seq<u8>,
    colors: Seq<u8>,
    w: Seq<u8>,
)
    requires
        next.refines(before, guess, colors),
        next.admits(w),
    ensures
        before.admits(w),
{
    assert forall|p: int| 0 <= p < 5 implies holds(#[trigger] before.possible@[p], w[p]) by {
        assert(holds(next.possible@[p], w[p]));
    }
    assert forall|c: u8| #[trigger] holds(before.required, c) implies occurs_upto(w, c, 5) by {
        assert(holds(next.required, c));
    }
}

proof fn lemma_all_letters(j: u32)
    requires
        j < 26,
    ensures
        bit(ALL_LETTERS, j),
{
    assert((0x3ff_ffffu32 >> j) & 1 == 1) by (bit_vector)
        requires
            j < 26,
    ;
}

proof fn lemma_no_bits(j: u32)
    requires
        j < 32,
    ensures
        !bit(0u32, j),
{
    assert((0u32 >> j) & 1 != 1) by (bit_vector)
        requires
            j < 32,
    ;
}

proof fn lemma_set_bit(m: u32, k: u32, j: u32)
    requires
        k < 32,
        j < 32,
    ensures
        bit(m | (1u32 << k), j) <==> bit(m, j) || j == k,
{
    assert((((m | (1u32 << k)) >> j) & 1 == 1) <==> (((m >> j) & 1 == 1) || j == k)) by (bit_vector)
        requires
            k < 32,
            j < 32,
    ;
}

proof fn lemma_or_bits(m: u32, n: u32, j: u32)
    requires
        j < 32,
    ensures
        bit(m | n, j) <==> bit(m, j) || bit(n, j),
{
    assert((((m | n) >> j) & 1 == 1) <==> (((m >> j) & 1 == 1) || ((n >> j) & 1 == 1)))
        by (bit_vector)
        requires
            j < 32,
    ;
}

proof fn lemma_clear_bits(m: u32, n: u32, j: u32)
    requires
        j < 32,
    ensures
        bit(m & !n, j) <==> bit(m, j) && !bit(n, j),
{
    assert((((m & !n) >> j) & 1 == 1) <==> (((m >> j) & 1 == 1) && !((n >> j) & 1 == 1)))
        by (bit_vector)
        requires
            j < 32,
    ;
}

proof fn lemma_keep_bit(m: u32, k: u32, j: u32)
    requires
        k < 32,
        j < 32,
    ensures
        bit(m & (1u32 << k), j) <==> bit(m, j) && j == k,
{
    assert((((m & (1u32 << k)) >> j) & 1 == 1) <==> (((m >> j) & 1 == 1) && j == k)) by (bit_vector)
        requires
            k < 32,
            j < 32,
    ;
}

proof fn lemma_drop_bit(m: u32, k: u32, j: u32)
    requires
        k < 32,
        j < 32,
    ensures
        bit(m & !(1u32 << k), j) <==> bit(m, j) && j != k,
{
    assert((((m & !(1u32 << k)) >> j) & 1 == 1) <==> (((m >> j) & 1 == 1) && j != k)) by (bit_vector)
        requires
            k < 32,
            j < 32,
    ;
}

proof fn lemma_and_shrinks(m: u32, n: u32)
    ensures
        m & n <= m,
{
    assert(m & n <= m) by (bit_vector);
}

proof fn lemma_set_keeps_letters(m: u32, k: u32)
    requires
        m <= ALL_LETTERS,
        k < 26,
    ensures
        m | (1u32 << k) <= ALL_LETTERS,
{
    assert(m | (1u32 << k) <= 0x3ff_ffffu32) by (bit_vector)
        requires
            m <= 0x3ff_ffffu32,
            k < 26,
    ;
}

proof fn lemma_or_keeps_letters(m: u32, n: u32)
    requires
        m <= ALL_LETTERS,
        n <= ALL_LETTERS,
    ensures
        m | n <= ALL_LETTERS,
{
    assert(m | n <= 0x3ff_ffffu32) by (bit_vector)
        requires
            m <= 0x3ff_ffffu32,
            n <= 0x3ff_ffffu32,
    ;
}

proof fn lemma_bit_means_nonzero(m: u32, j: u32)
    requires
        j < 32,
        bit(m, j),
    ensures
        m != 0,
{
    assert(((m >> j) & 1 == 1) ==> m != 0) by (bit_vector)
        requires
            j < 32,
    ;
}

} // verus!
