//! Sharing subtrees between histories that taught the same.
//!
//! The store keeps, for a depth and a state of knowledge, the tree that the
//! search found for the answers which that state admits. Whoever comes to
//! the same state at the same depth again gets that tree back.

use vstd::prelude::*;
use crate::word::Word;
use crate::feedback::Colors;
use crate::constraint::{ConstraintState, allowed};
use crate::search::{
    Game,
    Params,
    fits,
    game_of,
    index_from,
    lemma_solve_keyed,
    outcome,
    solve,
    spec_solve,
};
use crate::tree::{Node, Tree, well_keyed};

verus! {

/// What a stored tree is filed under: the depth, the masks of the letters
/// possible at each position, and the mask of the required letters.
pub struct Key {
    pub depth: nat,
    pub possible: Seq<u32>,
    pub required: u32,
}

/// The key for a state at a depth.
pub open spec fn key_of(depth: usize, state: ConstraintState) -> Key {
    Key { depth: depth as nat, possible: state.possible@, required: state.required }
}

/// One stored result.
struct Entry {
    depth: usize,
    state: ConstraintState,
    tree: Option<Tree>,
}

/// A store of search results, with at most one result for each key.
pub struct Memo {
    entries: Vec<Entry>,
}

/// The answers that the masks admit, as indices in ascending order, among
/// the first `n` of the vocabulary.
pub open spec fn admitted(
    possible: Seq<u32>,
    required: u32,
    answer_words: Seq<Word>,
    n: int,
) -> Seq<usize>
    decreases n,
{
    if n <= 0 {
        Seq::empty()
    } else {
        let before = admitted(possible, required, answer_words, n - 1);
        if allowed(possible, required, answer_words[n - 1]@) {
            before.push((n - 1) as usize)
        } else {
            before
        }
    }
}

/// The tree for the answers that a key admits, at the key's depth, or
/// nothing where it admits none.
pub open spec fn spec_subtree(game: Game, key: Key) -> Option<Node> {
    let candidates = admitted(
        key.possible,
        key.required,
        game.answer_words,
        game.answer_words.len() as int,
    );
    if candidates.len() == 0 {
        None
    } else {
        spec_solve(game, key.depth, candidates)
    }
}

impl Memo {
    /// The key of entry `i`.
    closed spec fn key_at(&self, i: int) -> Key {
        key_of(self.entries@[i].depth, self.entries@[i].state)
    }

    /// The first `n` entries as a map.
    closed spec fn upto(&self, n: int) -> Map<Key, Option<Node>>
        decreases n,
    {
        if n <= 0 {
            Map::empty()
        } else {
            self.upto(n - 1).insert(self.key_at(n - 1), outcome(self.entries@[n - 1].tree))
        }
    }

    /// No key is stored twice.
    #[verifier::type_invariant]
    closed spec fn distinct(&self) -> bool {
        forall|i: int, j: int| 0 <= i < j < self.entries@.len() ==> self.key_at(i) != self.key_at(j)
    }

    /// Every stored result is the tree that a search of `game` finds for its key.
    pub open spec fn agrees(&self, game: Game) -> bool {
        forall|k: Key| #[trigger] self@.contains_key(k) ==> self@[k] == spec_subtree(game, k)
    }

    /// An empty store.
    pub fn new() -> (memo: Memo)
        ensures
            memo@ == Map::<Key, Option<Node>>::empty(),
    {
        Memo { entries: Vec::new() }
    }

    /// The number of stored results.
    pub fn len(&self) -> (n: usize)
        ensures
            n == self@.dom().len(),
            self@.dom().finite(),
    {
        proof {
            use_type_invariant(self);
            self.lemma_upto(self.entries@.len() as int);
        }
        self.entries.len()
    }

    proof fn lemma_upto(&self, n: int)
        requires
            self.distinct(),
            0 <= n <= self.entries@.len(),
        ensures
            self.upto(n).dom().finite(),
            self.upto(n).dom().len() == n,
            forall|i: int|
                0 <= i < n ==> self.upto(n).contains_key(#[trigger] self.key_at(i)) && self.upto(
                    n,
                )[self.key_at(i)] == outcome(self.entries@[i].tree),
            forall|k: Key|
                #[trigger] self.upto(n).contains_key(k) ==> exists|i: int|
                    0 <= i < n && k == self.key_at(i),
        decreases n,
    {
        if n > 0 {
            self.lemma_upto(n - 1);
            let last = self.key_at(n - 1);
            if self.upto(n - 1).contains_key(last) {
                let i = choose|i: int| 0 <= i < n - 1 && last == self.key_at(i);
                assert(self.key_at(i) != self.key_at(n - 1));
            }
            assert forall|i: int| 0 <= i < n implies self.upto(n).contains_key(
                #[trigger] self.key_at(i),
            ) && self.upto(n)[self.key_at(i)] == outcome(self.entries@[i].tree) by {
                if i < n - 1 {
                    assert(self.key_at(i) != self.key_at(n - 1));
                }
            }
            assert forall|k: Key| #[trigger] self.upto(n).contains_key(k) implies exists|i: int|
                0 <= i < n && k == self.key_at(i) by {
                if k == last {
                    assert(k == self.key_at(n - 1));
                } else {
                    assert(self.upto(n - 1).contains_key(k));
                    let i = choose|i: int| 0 <= i < n - 1 && k == self.key_at(i);
                    assert(k == self.key_at(i));
                }
            }
        }
    }

    proof fn lemma_same_prefix(&self, other: Memo, n: int)
        requires
            0 <= n <= self.entries@.len(),
            n <= other.entries@.len(),
            forall|i: int| 0 <= i < n ==> self.entries@[i] == other.entries@[i],
        ensures
            self.upto(n) == other.upto(n),
        decreases n,
    {
        if n > 0 {
            self.lemma_same_prefix(other, n - 1);
        }
    }

    /// The result stored for a state at a depth, if there is one.
    pub fn lookup(&self, depth: usize, state: &ConstraintState) -> (hit: Option<Option<Tree>>)
        ensures
            hit is Some <==> self@.contains_key(key_of(depth, *state)),
            hit matches Some(t) ==> outcome(t) == self@[key_of(depth, *state)],
    {
        let n = self.entries.len();
        proof {
            use_type_invariant(self);
            self.lemma_upto(n as int);
        }
        let mut i: usize = 0;
        while i < n
            invariant
                i <= n,
                self.distinct(),
                n == self.entries@.len(),
                forall|j: int| 0 <= j < i ==> self.key_at(j) != key_of(depth, *state),
            decreases n - i,
        {
            if self.entries[i].depth == depth && self.entries[i].state.same(state) {
                let found = match &self.entries[i].tree {
                    Some(t) => Some(t.duplicate()),
                    None => None,
                };
                proof {
                    self.lemma_upto(n as int);
                    assert(self.key_at(i as int) == key_of(depth, *state));
                }
                return Some(found);
            }
            assert(self.key_at(i as int) != key_of(depth, *state)) by {
                if self.entries@[i as int].depth == depth {
                    assert(!(self.entries@[i as int].state.possible@ == state.possible@
                        && self.entries@[i as int].state.required == state.required));
                }
            }
            i += 1;
        }
        None
    }

    /// Stores a result under a key that has none yet.
    pub fn store(&mut self, depth: usize, state: &ConstraintState, tree: Option<Tree>)
        requires
            !old(self)@.contains_key(key_of(depth, *state)),
        ensures
            final(self)@ == old(self)@.insert(key_of(depth, *state), outcome(tree)),
    {
        proof {
            use_type_invariant(&*self);
            self.lemma_upto(self.entries@.len() as int);
        }
        let ghost before = *self;
        let ghost n = self.entries@.len() as int;
        proof {
            assert forall|i: int| 0 <= i < n implies before.key_at(i) != key_of(depth, *state) by {
                assert(before.upto(n).contains_key(before.key_at(i)));
            }
        }
        // The entries leave the store while they grow, so that the store
        // holds no key twice at any moment.
        let mut grown: Vec<Entry> = Vec::new();
        std::mem::swap(&mut self.entries, &mut grown);
        grown.push(Entry { depth, state: *state, tree });
        proof {
            let next = Memo { entries: grown };
            assert forall|i: int, j: int| 0 <= i < j < n + 1 implies next.key_at(i) != next.key_at(
                j,
            ) by {
                assert(next.entries@[i] == before.entries@[i]);
                assert(next.key_at(i) == before.key_at(i));
                if j < n {
                    assert(next.entries@[j] == before.entries@[j]);
                    assert(next.key_at(j) == before.key_at(j));
                }
            }
        }
        std::mem::swap(&mut self.entries, &mut grown);
        proof {
            self.lemma_same_prefix(before, n);
        }
    }

    /// The result stored for a state at a depth, or else what `compute`
    /// gives, which is then stored.
    pub fn get_or_compute<F: FnOnce() -> Option<Tree>>(
        &mut self,
        depth: usize,
        state: &ConstraintState,
        compute: F,
    ) -> (tree: Option<Tree>)
        requires
            compute.requires(()),
        ensures
            old(self)@.contains_key(key_of(depth, *state)) ==> {
                &&& outcome(tree) == old(self)@[key_of(depth, *state)]
                &&& final(self)@ == old(self)@
            },
            !old(self)@.contains_key(key_of(depth, *state)) ==> {
                &&& compute.ensures((), tree)
                &&& final(self)@ == old(self)@.insert(key_of(depth, *state), outcome(tree))
            },
    {
        match self.lookup(depth, state) {
            Some(t) => t,
            None => {
                let t = compute();
                let copy = match &t {
                    Some(x) => Some(x.duplicate()),
                    None => None,
                };
                self.store(depth, state, copy);
                t
            },
        }
    }
}

impl View for Memo {
    type V = Map<Key, Option<Node>>;

    closed spec fn view(&self) -> Map<Key, Option<Node>> {
        self.upto(self.entries@.len() as int)
    }
}

/// Every admitted index is an index of the vocabulary.
pub proof fn lemma_admitted_in_range(
    possible: Seq<u32>,
    required: u32,
    answer_words: Seq<Word>,
    n: int,
)
    requires
        n <= answer_words.len(),
        answer_words.len() <= usize::MAX,
    ensures
        admitted(possible, required, answer_words, n).len() <= if n < 0 {
            0
        } else {
            n
        },
        forall|i: int|
            0 <= i < admitted(possible, required, answer_words, n).len() ==> {
                let a = #[trigger] admitted(possible, required, answer_words, n)[i];
                a < n && allowed(possible, required, answer_words[a as int]@)
            },
    decreases n,
{
    if n > 0 {
        lemma_admitted_in_range(possible, required, answer_words, n - 1);
        let before = admitted(possible, required, answer_words, n - 1);
        let now = admitted(possible, required, answer_words, n);
        assert forall|i: int| 0 <= i < now.len() implies {
            let a = #[trigger] now[i];
            a < n && allowed(possible, required, answer_words[a as int]@)
        } by {
            if i < before.len() {
                assert(now[i] == before[i]);
            }
        }
    }
}

/// A result that was stored and one that is computed afresh for the same
/// depth and state are the same tree, whatever guesses led to the state.
pub proof fn lemma_stored_is_fresh(
    game: Game,
    memo: Memo,
    depth: usize,
    first: ConstraintState,
    second: ConstraintState,
    fresh: Option<Tree>,
)
    requires
        memo.agrees(game),
        key_of(depth, first) == key_of(depth, second),
        memo@.contains_key(key_of(depth, first)),
        outcome(fresh) == spec_subtree(game, key_of(depth, second)),
    ensures
        memo@[key_of(depth, first)] == outcome(fresh),
{
}

/// The answers that the state admits, as indices in ascending order.
pub fn candidates_of(state: &ConstraintState, answer_words: &[Word]) -> (candidates: Vec<usize>)
    ensures
        candidates@ == admitted(
            state.possible@,
            state.required,
            answer_words@,
            answer_words@.len() as int,
        ),
{
    let mut candidates: Vec<usize> = Vec::new();
    let n = answer_words.len();
    let mut a: usize = 0;
    while a < n
        invariant
            a <= n,
            n == answer_words@.len(),
            candidates@ == admitted(state.possible@, state.required, answer_words@, a as int),
        decreases n - a,
    {
        if state.could_be_answer(&answer_words[a]) {
            candidates.push(a);
        }
        a += 1;
    }
    candidates
}

/// The tree for the answers that the state admits, `depth` guesses into the
/// game, taken from the store where it is there and stored where it is not.
///
/// Where the state admits no answer there is no tree.
pub fn solve_from(
    params: &Params,
    depth: usize,
    state: &ConstraintState,
    guesses: &[usize],
    guess_words: &[Word],
    answer_words: &[Word],
    matrix: &Vec<Vec<Colors>>,
    memo: &mut Memo,
) -> (tree: Option<Tree>)
    requires
        old(memo).agrees(game_of(*params, guesses@, guess_words@, answer_words@, matrix@)),
        fits(matrix@, guess_words@.len(), answer_words@.len()),
        forall|i: int| 0 <= i < guesses@.len() ==> #[trigger] guesses@[i] < guess_words@.len(),
        answer_words@.len() * params.max_depth <= usize::MAX,
        (depth == 0 && params.starting_word is Some) ==> index_from(
            guess_words@,
            params.starting_word.unwrap(),
            0,
        ) < guess_words@.len(),
    ensures
        outcome(tree) == spec_subtree(
            game_of(*params, guesses@, guess_words@, answer_words@, matrix@),
            key_of(depth, *state),
        ),
        final(memo).agrees(game_of(*params, guesses@, guess_words@, answer_words@, matrix@)),
        final(memo)@.contains_key(key_of(depth, *state)),
        forall|k: Key| old(memo)@.contains_key(k) ==> #[trigger] final(memo)@.contains_key(k),
        tree matches Some(t) ==> well_keyed(t@),
{
    let ghost game = game_of(*params, guesses@, guess_words@, answer_words@, matrix@);
    let ghost key = key_of(depth, *state);
    proof {
        lemma_solve_keyed(
            game,
            depth as nat,
            admitted(
                state.possible@,
                state.required,
                answer_words@,
                answer_words@.len() as int,
            ),
        );
    }
    let compute = || -> (found: Option<Tree>)
        ensures
            outcome(found) == spec_subtree(game, key),
        {
            let candidates = candidates_of(state, answer_words);
            let n_words = answer_words.len();
            if candidates.len() == 0 {
                None
            } else {
                proof {
                    lemma_admitted_in_range(
                        state.possible@,
                        state.required,
                        answer_words@,
                        n_words as int,
                    );
                    let n = candidates@.len();
                    assert(n * params.max_depth <= answer_words@.len() * params.max_depth)
                        by (nonlinear_arith)
                        requires
                            n <= answer_words@.len(),
                    ;
                    assert forall|g: int, k: int|
                        0 <= g < game.rows.len() && 0 <= k < candidates@.len() implies #[trigger] candidates@[k]
                        < (#[trigger] game.rows[g]).len() by {
                        assert(game.rows[g] == matrix@[g]@);
                    }
                }
                solve(
                    params,
                    depth,
                    guesses,
                    candidates.as_slice(),
                    guess_words,
                    answer_words,
                    matrix,
                )
            }
        };
    memo.get_or_compute(depth, state, compute)
}

} // verus!
